//! The multiplexer: one table of virtual ports over one physical link.
//!
//! The table is plain state. Whoever owns the physical link feeds it the
//! frames that arrive (`deliver`), takes the frames to send (`take_outbound`)
//! and reports the link's failure (`transport_failed`); blocking and locking
//! belong to that owner.
use vstd::prelude::*;
use crate::frame::{fits, BodyView, Frame, FrameBody, FrameView};

verus! {

/// An event on the read side of one virtual port.
pub enum TunnelPortMsg {
    ConnectOk(Vec<u8>),
    ConnectFailed,
    Data(Vec<u8>),
    Closed,
}

pub enum MsgView {
    ConnectOk(Seq<u8>),
    ConnectFailed,
    Data(Seq<u8>),
    Closed,
}

impl View for TunnelPortMsg {
    type V = MsgView;

    open spec fn view(&self) -> MsgView {
        match self {
            TunnelPortMsg::ConnectOk(a) => MsgView::ConnectOk(a@),
            TunnelPortMsg::ConnectFailed => MsgView::ConnectFailed,
            TunnelPortMsg::Data(d) => MsgView::Data(d@),
            TunnelPortMsg::Closed => MsgView::Closed,
        }
    }
}

/// The write side of a port: nothing sent yet, connect request sent, closed.
#[derive(PartialEq, Eq, Structural, Clone, Copy, Debug)]
pub enum LocalHalf {
    Fresh,
    Open,
    Closed,
}

/// The read side of a port: no answer to the connect request yet, connected,
/// or a terminal event has been queued.
#[derive(PartialEq, Eq, Structural, Clone, Copy, Debug)]
pub enum RemoteHalf {
    Awaiting,
    Connected,
    Ended,
}

pub struct PortView {
    pub local: LocalHalf,
    pub remote: RemoteHalf,
    /// Whether the read handle still reads; once it has let go, events for
    /// the port are dropped.
    pub reader: bool,
    /// The events the read handle has already taken, oldest first.
    pub seen: Seq<MsgView>,
    /// The events waiting for the read handle, oldest first.
    pub queue: Seq<MsgView>,
}

pub struct TunnelView {
    pub alive: bool,
    pub next_id: u32,
    pub ports: Map<u32, PortView>,
    pub outbound: Seq<FrameView>,
}

pub open spec fn is_terminal(m: MsgView) -> bool {
    m is Closed || m is ConnectFailed
}

/// The events of one port in order: nothing yet; one terminal event; or a
/// `ConnectOk` followed by data, which only a `Closed` may end.
pub open spec fn protocol(h: Seq<MsgView>) -> bool {
    h.len() == 0 || (h.len() == 1 && is_terminal(h[0])) || (h[0] is ConnectOk && forall|i: int|
        1 <= i < h.len() ==> (#[trigger] h[i] is Data || (i == h.len() - 1 && h[i] is Closed)))
}

pub open spec fn history(p: PortView) -> Seq<MsgView> {
    p.seen + p.queue
}

pub open spec fn remote_of(h: Seq<MsgView>) -> RemoteHalf {
    if h.len() == 0 {
        RemoteHalf::Awaiting
    } else if is_terminal(h.last()) {
        RemoteHalf::Ended
    } else {
        RemoteHalf::Connected
    }
}

pub open spec fn port_ok(p: PortView) -> bool {
    protocol(history(p)) && p.remote == remote_of(history(p))
}

/// The port is reclaimed once its write side is closed and its read side is
/// done: the reader has taken every event up to the terminal one, or has let
/// go of the port. Events still queued for a reader are never dropped.
pub open spec fn finished(p: PortView) -> bool {
    p.local == LocalHalf::Closed && ((p.remote == RemoteHalf::Ended && p.queue.len() == 0)
        || !p.reader)
}

pub open spec fn fresh_port() -> PortView {
    PortView {
        local: LocalHalf::Fresh,
        remote: RemoteHalf::Awaiting,
        reader: true,
        seen: Seq::empty(),
        queue: Seq::empty(),
    }
}

/// The event that an inbound frame body gives a port in the given read state,
/// or none where the frame is out of protocol and is dropped.
pub open spec fn event_for(remote: RemoteHalf, b: BodyView) -> Option<MsgView> {
    match remote {
        RemoteHalf::Awaiting => match b {
            BodyView::ConnectOk(a) => Some(MsgView::ConnectOk(a)),
            BodyView::ConnectFailed => Some(MsgView::ConnectFailed),
            BodyView::Close => Some(MsgView::Closed),
            _ => None,
        },
        RemoteHalf::Connected => match b {
            BodyView::Data(d) => Some(MsgView::Data(d)),
            BodyView::Close => Some(MsgView::Closed),
            BodyView::ConnectFailed => Some(MsgView::Closed),
            _ => None,
        },
        RemoteHalf::Ended => None,
    }
}

pub open spec fn remote_after(m: MsgView) -> RemoteHalf {
    if is_terminal(m) {
        RemoteHalf::Ended
    } else {
        RemoteHalf::Connected
    }
}

pub open spec fn receive(p: PortView, b: BodyView) -> PortView {
    match event_for(p.remote, b) {
        Some(m) => if p.reader {
            PortView { remote: remote_after(m), queue: p.queue.push(m), ..p }
        } else {
            p
        },
        None => p,
    }
}

pub open spec fn deliver_spec(t: TunnelView, f: FrameView) -> TunnelView {
    if t.ports.contains_key(f.port) {
        TunnelView { ports: t.ports.insert(f.port, receive(t.ports[f.port], f.body)), ..t }
    } else {
        t
    }
}

/// A port after the link failed: a `Closed` event unless one is queued already.
pub open spec fn fail_port(p: PortView) -> PortView {
    if p.remote == RemoteHalf::Ended || !p.reader {
        p
    } else {
        PortView { remote: RemoteHalf::Ended, queue: p.queue.push(MsgView::Closed), ..p }
    }
}

pub open spec fn fail_spec(t: TunnelView) -> TunnelView {
    TunnelView {
        alive: false,
        ports: Map::new(|k: u32| t.ports.contains_key(k), |k: u32| fail_port(t.ports[k])),
        ..t
    }
}

/// Removes the port `id` if it has finished.
pub open spec fn settle(t: TunnelView, id: u32) -> TunnelView {
    if t.ports.contains_key(id) && finished(t.ports[id]) {
        TunnelView { ports: t.ports.remove(id), ..t }
    } else {
        t
    }
}

pub open spec fn open_spec(t: TunnelView) -> TunnelView {
    TunnelView {
        next_id: (t.next_id + 1) as u32,
        ports: t.ports.insert(t.next_id, fresh_port()),
        ..t
    }
}

pub open spec fn can_open(t: TunnelView) -> bool {
    t.alive && t.next_id < u32::MAX
}

/// A write-side operation on port `id`: the frame it sends and the new state
/// of the port.
pub open spec fn local_step(t: TunnelView, id: u32, b: BodyView, p: PortView) -> TunnelView {
    settle(
        TunnelView {
            ports: t.ports.insert(id, p),
            outbound: t.outbound.push(FrameView { port: id, body: b }),
            ..t
        },
        id,
    )
}

/// A connect request (by address or by name) on port `id`: sent only from a
/// port that has sent nothing yet.
pub open spec fn connect_spec(t: TunnelView, id: u32, b: BodyView) -> TunnelView {
    if t.ports.contains_key(id) && t.ports[id].local == LocalHalf::Fresh {
        local_step(t, id, b, PortView { local: LocalHalf::Open, ..t.ports[id] })
    } else {
        t
    }
}

pub open spec fn write_spec(t: TunnelView, id: u32, d: Seq<u8>) -> TunnelView {
    if t.ports.contains_key(id) && t.ports[id].local == LocalHalf::Open {
        local_step(t, id, BodyView::Data(d), t.ports[id])
    } else {
        t
    }
}

/// The port after its write side closed: a read side still waiting for the
/// answer to a connect request will get none, so it ends here.
pub open spec fn close_port(p: PortView) -> PortView {
    if p.remote == RemoteHalf::Awaiting {
        PortView {
            local: LocalHalf::Closed,
            remote: RemoteHalf::Ended,
            queue: p.queue.push(MsgView::Closed),
            ..p
        }
    } else {
        PortView { local: LocalHalf::Closed, ..p }
    }
}

pub open spec fn close_spec(t: TunnelView, id: u32) -> TunnelView {
    if t.ports.contains_key(id) && t.ports[id].local != LocalHalf::Closed {
        local_step(t, id, BodyView::Close, close_port(t.ports[id]))
    } else {
        t
    }
}

/// The read handle of port `id` lets go: its unread events are discarded,
/// later ones are dropped, and the port goes once its write side is closed.
pub open spec fn release_spec(t: TunnelView, id: u32) -> TunnelView {
    if t.ports.contains_key(id) {
        let p = t.ports[id];
        settle(
            TunnelView {
                ports: t.ports.insert(
                    id,
                    PortView { reader: false, seen: p.seen + p.queue, queue: Seq::empty(), ..p },
                ),
                ..t
            },
            id,
        )
    } else {
        t
    }
}

/// What a read on port `id` returns, with the new state: the oldest queued
/// event; nothing while the queue is empty; `Closed` once the port is gone.
pub open spec fn read_spec(t: TunnelView, id: u32) -> (TunnelView, Option<MsgView>) {
    if !t.ports.contains_key(id) {
        (t, Some(MsgView::Closed))
    } else if t.ports[id].queue.len() == 0 {
        (t, None)
    } else {
        let p = t.ports[id];
        let q = PortView { seen: p.seen.push(p.queue[0]), queue: p.queue.drop_first(), ..p };
        (settle(TunnelView { ports: t.ports.insert(id, q), ..t }, id), Some(p.queue[0]))
    }
}

pub open spec fn tunnel_ok(t: TunnelView) -> bool {
    &&& forall|k: u32| t.ports.contains_key(k) ==> k < t.next_id
    &&& forall|k: u32| #[trigger] t.ports.contains_key(k) ==> port_ok(t.ports[k])
    &&& forall|k: u32| #[trigger] t.ports.contains_key(k) ==> !finished(t.ports[k])
}


pub open spec fn msgs(q: Seq<TunnelPortMsg>) -> Seq<MsgView> {
    q.map_values(|m: TunnelPortMsg| m@)
}

pub open spec fn frames(v: Seq<Frame>) -> Seq<FrameView> {
    v.map_values(|f: Frame| f@)
}

pub open spec fn opt_msg(r: Option<TunnelPortMsg>) -> Option<MsgView> {
    match r {
        Some(m) => Some(m@),
        None => None,
    }
}

struct PortEntry {
    id: u32,
    local: LocalHalf,
    remote: RemoteHalf,
    reader: bool,
    seen: Ghost<Seq<MsgView>>,
    queue: Vec<TunnelPortMsg>,
}

impl PortEntry {
    spec fn pv(&self) -> PortView {
        PortView {
            local: self.local,
            remote: self.remote,
            reader: self.reader,
            seen: self.seen@,
            queue: msgs(self.queue@),
        }
    }
}

spec fn entries(ps: Seq<PortEntry>) -> Seq<(u32, PortView)> {
    ps.map_values(|e: PortEntry| (e.id, e.pv()))
}

spec fn has_at(es: Seq<(u32, PortView)>, i: int, k: u32) -> bool {
    0 <= i < es.len() && es[i].0 == k
}

spec fn port_map(es: Seq<(u32, PortView)>) -> Map<u32, PortView> {
    Map::new(
        |k: u32| exists|i: int| has_at(es, i, k),
        |k: u32| es[choose|i: int| has_at(es, i, k)].1,
    )
}

spec fn ids_sorted(es: Seq<(u32, PortView)>) -> bool {
    forall|i: int, j: int| 0 <= i < j < es.len() ==> es[i].0 < es[j].0
}

proof fn lemma_map_at(es: Seq<(u32, PortView)>, i: int)
    requires
        ids_sorted(es),
        0 <= i < es.len(),
    ensures
        port_map(es).contains_key(es[i].0),
        port_map(es)[es[i].0] == es[i].1,
{
    assert(has_at(es, i, es[i].0));
    let j = choose|j: int| has_at(es, j, es[i].0);
    assert(j == i);
}

proof fn lemma_map_update(es: Seq<(u32, PortView)>, i: int, v: PortView)
    requires
        ids_sorted(es),
        0 <= i < es.len(),
    ensures
        ids_sorted(es.update(i, (es[i].0, v))),
        port_map(es.update(i, (es[i].0, v))) == port_map(es).insert(es[i].0, v),
{
    let es2 = es.update(i, (es[i].0, v));
    let m = port_map(es);
    let m2 = port_map(es2);
    assert forall|k: u32| m2.contains_key(k) == m.insert(es[i].0, v).contains_key(k) by {
        if m2.contains_key(k) {
            let j = choose|j: int| has_at(es2, j, k);
            assert(has_at(es, j, k));
        }
        if m.contains_key(k) {
            let j = choose|j: int| has_at(es, j, k);
            assert(has_at(es2, j, k));
        }
        if k == es[i].0 {
            assert(has_at(es2, i, k));
        }
    }
    assert forall|k: u32| #[trigger] m2.contains_key(k) implies m2[k] == m.insert(es[i].0, v)[k] by {
        let j = choose|j: int| has_at(es2, j, k);
        if j != i {
            lemma_map_at(es, j);
        }
    }
    assert(m2 =~= m.insert(es[i].0, v));
}

proof fn lemma_map_remove(es: Seq<(u32, PortView)>, i: int)
    requires
        ids_sorted(es),
        0 <= i < es.len(),
    ensures
        ids_sorted(es.remove(i)),
        port_map(es.remove(i)) == port_map(es).remove(es[i].0),
{
    let es2 = es.remove(i);
    let m = port_map(es);
    let m2 = port_map(es2);
    assert forall|a: int, b: int| 0 <= a < b < es2.len() implies es2[a].0 < es2[b].0 by {
        let a1 = if a < i { a } else { a + 1 };
        let b1 = if b < i { b } else { b + 1 };
        assert(es2[a] == es[a1] && es2[b] == es[b1]);
    }
    assert forall|k: u32| m2.contains_key(k) == m.remove(es[i].0).contains_key(k) by {
        if m2.contains_key(k) {
            let j = choose|j: int| has_at(es2, j, k);
            let j1 = if j < i { j } else { j + 1 };
            assert(has_at(es, j1, k));
        }
        if m.contains_key(k) && k != es[i].0 {
            let j = choose|j: int| has_at(es, j, k);
            let j2 = if j < i { j } else { j - 1 };
            assert(has_at(es2, j2, k));
        }
    }
    assert forall|k: u32| #[trigger] m2.contains_key(k) implies m2[k] == m.remove(es[i].0)[k] by {
        let j = choose|j: int| has_at(es2, j, k);
        let j1 = if j < i { j } else { j + 1 };
        lemma_map_at(es, j1);
        lemma_map_at(es2, j);
    }
    assert(m2 =~= m.remove(es[i].0));
}

proof fn lemma_map_push(es: Seq<(u32, PortView)>, id: u32, v: PortView)
    requires
        ids_sorted(es),
        forall|i: int| 0 <= i < es.len() ==> es[i].0 < id,
    ensures
        ids_sorted(es.push((id, v))),
        port_map(es.push((id, v))) == port_map(es).insert(id, v),
{
    let es2 = es.push((id, v));
    let m = port_map(es);
    let m2 = port_map(es2);
    assert forall|k: u32| m2.contains_key(k) == m.insert(id, v).contains_key(k) by {
        if m2.contains_key(k) && k != id {
            let j = choose|j: int| has_at(es2, j, k);
            assert(has_at(es, j, k));
        }
        if m.contains_key(k) {
            let j = choose|j: int| has_at(es, j, k);
            assert(has_at(es2, j, k));
        }
        if k == id {
            assert(has_at(es2, es.len() as int, k));
        }
    }
    assert(ids_sorted(es2));
    assert forall|k: u32| #[trigger] m2.contains_key(k) implies m2[k] == m.insert(id, v)[k] by {
        let j = choose|j: int| has_at(es2, j, k);
        lemma_map_at(es2, j);
        if j < es.len() {
            lemma_map_at(es, j);
        }
    }
    assert(m2 =~= m.insert(id, v));
}

proof fn lemma_map_fail(es: Seq<(u32, PortView)>, es2: Seq<(u32, PortView)>)
    requires
        ids_sorted(es),
        es2.len() == es.len(),
        forall|i: int| 0 <= i < es.len() ==> #[trigger] es2[i] == (es[i].0, fail_port(es[i].1)),
    ensures
        ids_sorted(es2),
        port_map(es2) == Map::new(
            |k: u32| port_map(es).contains_key(k),
            |k: u32| fail_port(port_map(es)[k]),
        ),
{
    let m = port_map(es);
    let m2 = port_map(es2);
    let mf = Map::new(|k: u32| m.contains_key(k), |k: u32| fail_port(m[k]));
    assert forall|a: int, b: int| 0 <= a < b < es2.len() implies es2[a].0 < es2[b].0 by {
        assert(es2[a] == (es[a].0, fail_port(es[a].1)));
        assert(es2[b] == (es[b].0, fail_port(es[b].1)));
    }
    assert forall|k: u32| m2.contains_key(k) == mf.contains_key(k) by {
        if m2.contains_key(k) {
            let j = choose|j: int| has_at(es2, j, k);
            assert(es2[j] == (es[j].0, fail_port(es[j].1)));
            assert(has_at(es, j, k));
        }
        if m.contains_key(k) {
            let j = choose|j: int| has_at(es, j, k);
            assert(es2[j] == (es[j].0, fail_port(es[j].1)));
            assert(has_at(es2, j, k));
        }
    }
    assert forall|k: u32| #[trigger] m2.contains_key(k) implies m2[k] == mf[k] by {
        let j = choose|j: int| has_at(es2, j, k);
        assert(es2[j] == (es[j].0, fail_port(es[j].1)));
        lemma_map_at(es2, j);
        lemma_map_at(es, j);
    }
    assert(m2 =~= mf);
}

/// The port table and the frames waiting to go out on the physical link.
pub struct Tunnel {
    alive: bool,
    next_id: u32,
    ports: Vec<PortEntry>,
    outbound: Vec<Frame>,
}

/// The write side of one virtual port.
pub struct TunnelWritePort {
    id: u32,
}

/// The read side of one virtual port.
pub struct TunnelReadPort {
    id: u32,
}

impl View for Tunnel {
    type V = TunnelView;

    closed spec fn view(&self) -> TunnelView {
        TunnelView {
            alive: self.alive,
            next_id: self.next_id,
            ports: port_map(entries(self.ports@)),
            outbound: frames(self.outbound@),
        }
    }
}

impl TunnelWritePort {
    pub closed spec fn port_id(&self) -> u32 {
        self.id
    }

    pub fn id(&self) -> (r: u32)
        ensures
            r == self.port_id(),
    {
        self.id
    }
}

impl TunnelReadPort {
    pub closed spec fn port_id(&self) -> u32 {
        self.id
    }

    pub fn id(&self) -> (r: u32)
        ensures
            r == self.port_id(),
    {
        self.id
    }
}

impl Tunnel {
    pub closed spec fn wf(&self) -> bool {
        &&& ids_sorted(entries(self.ports@))
        &&& forall|i: int| 0 <= i < self.ports@.len() ==> self.ports@[i].id < self.next_id
        &&& forall|i: int| 0 <= i < self.ports@.len() ==> !finished(#[trigger] self.ports@[i].pv())
        &&& forall|i: int| 0 <= i < self.outbound@.len() ==> fits(#[trigger] self.outbound@[i]@)
    }

    /// A tunnel over a working link, with no ports yet.
    pub fn new() -> (r: Tunnel)
        ensures
            r.wf(),
            r@ == (TunnelView {
                alive: true,
                next_id: 0,
                ports: Map::empty(),
                outbound: Seq::empty(),
            }),
    {
        let r = Tunnel { alive: true, next_id: 0, ports: Vec::new(), outbound: Vec::new() };
        assert(port_map(entries(r.ports@)) =~= Map::empty());
        assert(frames(r.outbound@) =~= Seq::empty());
        r
    }

    /// Whether the physical link still works.
    pub fn is_alive(&self) -> (r: bool)
        ensures
            r == self@.alive,
    {
        self.alive
    }

    fn find(&self, id: u32) -> (r: Option<usize>)
        requires
            self.wf(),
        ensures
            match r {
                Some(i) => i < self.ports@.len() && self.ports@[i as int].id == id,
                None => !self@.ports.contains_key(id),
            },
    {
        let mut i: usize = 0;
        while i < self.ports.len()
            invariant
                i <= self.ports@.len(),
                forall|j: int| 0 <= j < i ==> self.ports@[j].id != id,
            decreases self.ports@.len() - i,
        {
            if self.ports[i].id == id {
                return Some(i);
            }
            i = i + 1;
        }
        proof {
            if self@.ports.contains_key(id) {
                let j = choose|j: int| has_at(entries(self.ports@), j, id);
                assert(entries(self.ports@)[j].0 == self.ports@[j].id);
            }
        }
        None
    }

    proof fn lemma_entry(&self, i: int)
        requires
            self.wf(),
            0 <= i < self.ports@.len(),
        ensures
            self@.ports.contains_key(self.ports@[i].id),
            self@.ports[self.ports@[i].id] == self.ports@[i].pv(),
    {
        lemma_map_at(entries(self.ports@), i);
    }

    /// Takes the entry at `i` out of the table to change it.
    fn take_entry(&mut self, i: usize) -> (e: PortEntry)
        requires
            old(self).wf(),
            i < old(self).ports@.len(),
        ensures
            e == old(self).ports@[i as int],
            final(self).ports@ == old(self).ports@.remove(i as int),
            final(self).alive == old(self).alive,
            final(self).next_id == old(self).next_id,
            final(self).outbound == old(self).outbound,
            old(self)@.ports.contains_key(e.id),
            old(self)@.ports[e.id] == e.pv(),
    {
        proof {
            self.lemma_entry(i as int);
        }
        self.ports.remove(i)
    }

    /// Puts a changed entry back where `take_entry` took it from, or drops it
    /// if the port has finished.
    fn restore(&mut self, i: usize, e: PortEntry, Ghost(before): Ghost<Seq<PortEntry>>)
        requires
            i < before.len(),
            old(self).ports@ == before.remove(i as int),
            before[i as int].id == e.id,
            ids_sorted(entries(before)),
            forall|j: int| 0 <= j < before.len() ==> before[j].id < old(self).next_id,
            forall|j: int| 0 <= j < before.len() && j != i ==> !finished(#[trigger] before[j].pv()),
            forall|j: int| 0 <= j < old(self).outbound@.len() ==> fits(#[trigger] old(self).outbound@[j]@),
        ensures
            final(self).wf(),
            final(self)@ == settle(
                TunnelView {
                    ports: port_map(entries(before)).insert(e.id, e.pv()),
                    ..old(self)@
                },
                e.id,
            ),
    {
        let ghost es = entries(before);
        let ghost m = port_map(es);
        proof {
            assert(es[i as int].0 == e.id);
            lemma_map_at(es, i as int);
        }
        if e.local == LocalHalf::Closed && ((e.remote == RemoteHalf::Ended && e.queue.len() == 0)
            || !e.reader) {
            proof {
                lemma_map_remove(es, i as int);
                assert(entries(self.ports@) =~= es.remove(i as int));
                assert(m.insert(e.id, e.pv()).remove(e.id) =~= m.remove(e.id));
                assert forall|j: int| 0 <= j < self.ports@.len() implies self.ports@[j].id < self.next_id
                    && !finished(#[trigger] self.ports@[j].pv()) by {
                    let j1 = if j < i { j } else { j + 1 };
                    assert(self.ports@[j] == before[j1]);
                }
            }
        } else {
            self.ports.insert(i, e);
            proof {
                lemma_map_update(es, i as int, e.pv());
                assert(entries(self.ports@) =~= es.update(i as int, (e.id, e.pv())));
                assert forall|j: int| 0 <= j < self.ports@.len() implies self.ports@[j].id < self.next_id
                    && !finished(#[trigger] self.ports@[j].pv()) by {
                    if j != i {
                        assert(self.ports@[j] == before[j]);
                    }
                }
            }
        }
    }

    /// Allocates a fresh virtual port and returns its two handles; none once
    /// the link has failed or the identifiers are spent.
    pub fn open_port(&mut self) -> (r: Option<(TunnelWritePort, TunnelReadPort)>)
        requires
            old(self).wf(),
        ensures
            final(self).wf(),
            match r {
                Some((w, rd)) => can_open(old(self)@) && final(self)@ == open_spec(old(self)@)
                    && w.port_id() == old(self)@.next_id && rd.port_id() == old(self)@.next_id,
                None => !can_open(old(self)@) && final(self)@ == old(self)@,
            },
    {
        if !self.alive || self.next_id == u32::MAX {
            return None;
        }
        let id = self.next_id;
        let entry = PortEntry {
            id,
            local: LocalHalf::Fresh,
            remote: RemoteHalf::Awaiting,
            reader: true,
            seen: Ghost(Seq::empty()),
            queue: Vec::new(),
        };
        proof {
            assert(entry.pv().queue =~= Seq::<MsgView>::empty());
            lemma_map_push(entries(self.ports@), id, entry.pv());
        }
        self.ports.push(entry);
        self.next_id = id + 1;
        assert(self.ports@[self.ports@.len() - 1] == entry);
        proof {
            assert(entries(self.ports@) =~= entries(old(self).ports@).push((id, entry.pv())));
        }
        Some((TunnelWritePort { id }, TunnelReadPort { id }))
    }

    /// Hands an inbound frame to the port it names. A frame for a port that is
    /// not in the table, or out of the port's protocol, is dropped; the result
    /// says whether it was taken.
    pub fn deliver(&mut self, f: Frame) -> (taken: bool)
        requires
            old(self).wf(),
        ensures
            final(self).wf(),
            final(self)@ == deliver_spec(old(self)@, f@),
            taken == (old(self)@.ports.contains_key(f.port) && old(self)@.ports[f.port].reader
                && event_for(old(self)@.ports[f.port].remote, f@.body) is Some),
    {
        let ghost fv = f@;
        let i = match self.find(f.port) {
            None => return false,
            Some(i) => i,
        };
        let ghost before = self.ports@;
        let mut e = self.take_entry(i);
        let ghost p = e.pv();
        let ev: Option<TunnelPortMsg> = if !e.reader {
            None
        } else {
            match e.remote {
            RemoteHalf::Awaiting => match f.body {
                FrameBody::ConnectOk(a) => Some(TunnelPortMsg::ConnectOk(a)),
                FrameBody::ConnectFailed => Some(TunnelPortMsg::ConnectFailed),
                FrameBody::Close => Some(TunnelPortMsg::Closed),
                _ => None,
            },
            RemoteHalf::Connected => match f.body {
                FrameBody::Data(d) => Some(TunnelPortMsg::Data(d)),
                FrameBody::Close => Some(TunnelPortMsg::Closed),
                FrameBody::ConnectFailed => Some(TunnelPortMsg::Closed),
                _ => None,
            },
            RemoteHalf::Ended => None,
            }
        };
        let taken = match ev {
            Some(m) => {
                e.remote = match m {
                    TunnelPortMsg::Closed | TunnelPortMsg::ConnectFailed => RemoteHalf::Ended,
                    _ => RemoteHalf::Connected,
                };
                let ghost q0 = e.queue@;
                e.queue.push(m);
                assert(msgs(e.queue@) =~= msgs(q0).push(m@));
                true
            },
            None => false,
        };
        assert(e.pv() == receive(p, fv.body));
        self.restore(i, e, Ghost(before));
        taken
    }

    /// Hands in a run of inbound frames, in order, as `deliver` does each.
    pub fn deliver_frames(&mut self, fs: Vec<Frame>)
        requires
            old(self).wf(),
        ensures
            final(self).wf(),
            final(self)@ == crate::laws::deliver_all(old(self)@, frames(fs@)),
    {
        let mut fs = fs;
        let ghost all = frames(fs@);
        let ghost start = self@;
        let n = fs.len();
        assert(all.len() == n);
        assert(all.skip(0) =~= all);
        assert(all.take(0) =~= Seq::<FrameView>::empty());
        let mut done: usize = 0;
        while fs.len() > 0
            invariant
                self.wf(),
                done + fs@.len() == all.len(),
                all.len() <= usize::MAX,
                frames(fs@) == all.skip(done as int),
                self@ == crate::laws::deliver_all(start, all.take(done as int)),
            decreases fs@.len(),
        {
            let ghost f0 = fs@[0]@;
            let ghost before = fs@;
            let f = fs.remove(0);
            proof {
                assert(frames(before)[0] == f0);
                assert(all.skip(done as int)[0] == all[done as int]);
                assert(all.take(done + 1).drop_last() =~= all.take(done as int));
                assert(all[done as int] == f0);
            }
            self.deliver(f);
            done = done + 1;
            assert(frames(fs@) =~= frames(before).drop_first());
            assert(frames(fs@) =~= all.skip(done as int));
        }
        assert(all.take(done as int) =~= all);
    }

    /// The physical link has failed: every port gets a terminal event, and no
    /// port opens any more.
    pub fn transport_failed(&mut self)
        requires
            old(self).wf(),
        ensures
            final(self).wf(),
            final(self)@ == fail_spec(old(self)@),
    {
        let ghost es = entries(self.ports@);
        let mut rest: Vec<PortEntry> = Vec::new();
        core::mem::swap(&mut rest, &mut self.ports);
        let ghost all = rest@;
        let mut done: Vec<PortEntry> = Vec::new();
        while rest.len() > 0
            invariant
                es == entries(all),
                ids_sorted(es),
                forall|i: int| 0 <= i < all.len() ==> all[i].id < self.next_id,
                forall|i: int| 0 <= i < all.len() ==> !finished(#[trigger] all[i].pv()),
                done@.len() + rest@.len() == all.len(),
                rest@ == all.subrange(done@.len() as int, all.len() as int),
                forall|j: int| 0 <= j < done@.len() ==> #[trigger] done@[j].id == all[j].id
                    && done@[j].pv() == fail_port(all[j].pv()),
            decreases rest@.len(),
        {
            let ghost d0 = done@;
            let mut e = rest.remove(0);
            assert(e == all[d0.len() as int]);
            let ghost p = e.pv();
            if e.remote != RemoteHalf::Ended && e.reader {
                e.remote = RemoteHalf::Ended;
                let ghost q0 = e.queue@;
                e.queue.push(TunnelPortMsg::Closed);
                assert(msgs(e.queue@) =~= msgs(q0).push(MsgView::Closed));
            }
            assert(e.pv() == fail_port(p));
            done.push(e);
            assert(rest@ =~= all.subrange(done@.len() as int, all.len() as int));
            assert forall|j: int| 0 <= j < done@.len() implies #[trigger] done@[j].id == all[j].id
                && done@[j].pv() == fail_port(all[j].pv()) by {
                if j < d0.len() {
                    assert(done@[j] == d0[j]);
                }
            }
        }
        self.ports = done;
        self.alive = false;
        proof {
            let es2 = entries(self.ports@);
            assert forall|i: int| 0 <= i < es.len() implies #[trigger] es2[i] == (es[i].0, fail_port(es[i].1)) by {
                assert(self.ports@[i].id == all[i].id);
            }
            lemma_map_fail(es, es2);
            assert forall|i: int| 0 <= i < self.ports@.len() implies self.ports@[i].id < self.next_id
                && !finished(#[trigger] self.ports@[i].pv()) by {
                assert(self.ports@[i].id == all[i].id);
                assert(!finished(all[i].pv()));
            }
        }
    }

    /// Takes every frame waiting to go out, oldest first.
    pub fn take_outbound(&mut self) -> (r: Vec<Frame>)
        requires
            old(self).wf(),
        ensures
            final(self).wf(),
            frames(r@) == old(self)@.outbound,
            forall|i: int| 0 <= i < r@.len() ==> fits(#[trigger] r@[i]@),
            final(self)@ == (TunnelView { outbound: Seq::empty(), ..old(self)@ }),
    {
        let mut r: Vec<Frame> = Vec::new();
        core::mem::swap(&mut r, &mut self.outbound);
        assert(frames(self.outbound@) =~= Seq::empty());
        r
    }

    fn connect_with(&mut self, id: u32, body: FrameBody) -> (sent: bool)
        requires
            old(self).wf(),
            fits(FrameView { port: id, body: body@ }),
        ensures
            final(self).wf(),
            final(self)@ == connect_spec(old(self)@, id, body@),
            sent == (old(self)@.ports.contains_key(id) && old(self)@.ports[id].local == LocalHalf::Fresh),
    {
        let i = match self.find(id) {
            None => return false,
            Some(i) => i,
        };
        proof {
            self.lemma_entry(i as int);
        }
        if self.ports[i].local != LocalHalf::Fresh {
            return false;
        }
        let ghost before = self.ports@;
        let mut e = self.take_entry(i);
        e.local = LocalHalf::Open;
        let ghost o = self.outbound@;
        self.outbound.push(Frame { port: id, body });
        assert(frames(self.outbound@) =~= frames(o).push(FrameView { port: id, body: body@ }));
        assert(forall|j: int| 0 <= j < o.len() ==> self.outbound@[j] == o[j]);
        self.restore(i, e, Ghost(before));
        true
    }

    fn write_with(&mut self, id: u32, data: Vec<u8>) -> (sent: bool)
        requires
            old(self).wf(),
            data@.len() <= u32::MAX,
        ensures
            final(self).wf(),
            final(self)@ == write_spec(old(self)@, id, data@),
            sent == (old(self)@.ports.contains_key(id) && old(self)@.ports[id].local == LocalHalf::Open),
    {
        let i = match self.find(id) {
            None => return false,
            Some(i) => i,
        };
        proof {
            self.lemma_entry(i as int);
        }
        if self.ports[i].local != LocalHalf::Open {
            return false;
        }
        let ghost before = self.ports@;
        let e = self.take_entry(i);
        let ghost o = self.outbound@;
        let ghost d = data@;
        self.outbound.push(Frame { port: id, body: FrameBody::Data(data) });
        assert(frames(self.outbound@) =~= frames(o).push(FrameView { port: id, body: BodyView::Data(d) }));
        assert(forall|j: int| 0 <= j < o.len() ==> self.outbound@[j] == o[j]);
        self.restore(i, e, Ghost(before));
        true
    }

    fn close_with(&mut self, id: u32) -> (sent: bool)
        requires
            old(self).wf(),
        ensures
            final(self).wf(),
            final(self)@ == close_spec(old(self)@, id),
            sent == (old(self)@.ports.contains_key(id) && old(self)@.ports[id].local != LocalHalf::Closed),
    {
        let i = match self.find(id) {
            None => return false,
            Some(i) => i,
        };
        proof {
            self.lemma_entry(i as int);
        }
        if self.ports[i].local == LocalHalf::Closed {
            return false;
        }
        let ghost before = self.ports@;
        let mut e = self.take_entry(i);
        let ghost p = e.pv();
        e.local = LocalHalf::Closed;
        if e.remote == RemoteHalf::Awaiting {
            e.remote = RemoteHalf::Ended;
            let ghost q0 = e.queue@;
            e.queue.push(TunnelPortMsg::Closed);
            assert(msgs(e.queue@) =~= msgs(q0).push(MsgView::Closed));
        }
        assert(e.pv() == close_port(p));
        let ghost o = self.outbound@;
        self.outbound.push(Frame { port: id, body: FrameBody::Close });
        assert(frames(self.outbound@) =~= frames(o).push(FrameView { port: id, body: BodyView::Close }));
        assert(forall|j: int| 0 <= j < o.len() ==> self.outbound@[j] == o[j]);
        self.restore(i, e, Ghost(before));
        true
    }

    fn release_at(&mut self, id: u32)
        requires
            old(self).wf(),
        ensures
            final(self).wf(),
            final(self)@ == release_spec(old(self)@, id),
    {
        let i = match self.find(id) {
            None => return ,
            Some(i) => i,
        };
        let ghost before = self.ports@;
        let mut e = self.take_entry(i);
        let ghost p = e.pv();
        e.reader = false;
        e.seen = Ghost(e.seen@ + msgs(e.queue@));
        e.queue = Vec::new();
        assert(msgs(e.queue@) =~= Seq::<MsgView>::empty());
        self.restore(i, e, Ghost(before));
    }

    fn read_from(&mut self, id: u32) -> (r: Option<TunnelPortMsg>)
        requires
            old(self).wf(),
        ensures
            final(self).wf(),
            (final(self)@, opt_msg(r)) == read_spec(old(self)@, id),
    {
        let i = match self.find(id) {
            None => return Some(TunnelPortMsg::Closed),
            Some(i) => i,
        };
        proof {
            self.lemma_entry(i as int);
        }
        if self.ports[i].queue.len() == 0 {
            return None;
        }
        let ghost before = self.ports@;
        let mut e = self.take_entry(i);
        let ghost p = e.pv();
        let ghost q0 = e.queue@;
        let m = e.queue.remove(0);
        e.seen = Ghost(e.seen@.push(m@));
        assert(msgs(e.queue@) =~= msgs(q0).drop_first());
        self.restore(i, e, Ghost(before));
        Some(m)
    }
}

impl TunnelWritePort {
    /// Asks the relay to connect this port to an address, written as text.
    /// Sent only from a port that has sent nothing yet; the result says
    /// whether it was sent.
    pub fn connect(&self, t: &mut Tunnel, addr: Vec<u8>) -> (sent: bool)
        requires
            old(t).wf(),
            addr@.len() <= u32::MAX,
        ensures
            final(t).wf(),
            final(t)@ == connect_spec(old(t)@, self.port_id(), BodyView::Connect(addr@)),
            sent == (old(t)@.ports.contains_key(self.port_id())
                && old(t)@.ports[self.port_id()].local == LocalHalf::Fresh),
    {
        t.connect_with(self.id, FrameBody::Connect(addr))
    }

    /// Asks the relay to resolve a domain name and connect this port to it.
    pub fn connect_domain_name(&self, t: &mut Tunnel, name: Vec<u8>, port: u16) -> (sent: bool)
        requires
            old(t).wf(),
            name@.len() + 2 <= u32::MAX,
        ensures
            final(t).wf(),
            final(t)@ == connect_spec(old(t)@, self.port_id(), BodyView::ConnectDomain(name@, port)),
            sent == (old(t)@.ports.contains_key(self.port_id())
                && old(t)@.ports[self.port_id()].local == LocalHalf::Fresh),
    {
        t.connect_with(self.id, FrameBody::ConnectDomain(name, port))
    }

    /// Sends bytes on this port. Only a port whose connect request went out
    /// and that is not closed sends; on any other the call changes nothing and
    /// returns `false`.
    pub fn write(&self, t: &mut Tunnel, data: Vec<u8>) -> (sent: bool)
        requires
            old(t).wf(),
            data@.len() <= u32::MAX,
        ensures
            final(t).wf(),
            final(t)@ == write_spec(old(t)@, self.port_id(), data@),
            sent == (old(t)@.ports.contains_key(self.port_id())
                && old(t)@.ports[self.port_id()].local == LocalHalf::Open),
    {
        t.write_with(self.id, data)
    }

    /// Closes the write side of this port. A second call changes nothing.
    pub fn close(&self, t: &mut Tunnel) -> (sent: bool)
        requires
            old(t).wf(),
        ensures
            final(t).wf(),
            final(t)@ == close_spec(old(t)@, self.port_id()),
            sent == (old(t)@.ports.contains_key(self.port_id())
                && old(t)@.ports[self.port_id()].local != LocalHalf::Closed),
    {
        t.close_with(self.id)
    }
}

impl TunnelReadPort {
    /// The next event of this port, oldest first; `None` while nothing is
    /// waiting, and `Closed` once the port has been reclaimed.
    pub fn try_read(&self, t: &mut Tunnel) -> (r: Option<TunnelPortMsg>)
        requires
            old(t).wf(),
        ensures
            final(t).wf(),
            (final(t)@, opt_msg(r)) == read_spec(old(t)@, self.port_id()),
    {
        t.read_from(self.id)
    }

    /// Lets go of the port: a reader that stops reading calls this. Its
    /// unread events are discarded, and the port is reclaimed at once if its
    /// write side is closed, or else when that side closes.
    pub fn release(self, t: &mut Tunnel)
        requires
            old(t).wf(),
        ensures
            final(t).wf(),
            final(t)@ == release_spec(old(t)@, self.port_id()),
            old(t)@.ports.contains_key(self.port_id()) && old(t)@.ports[self.port_id()].local
                == LocalHalf::Closed ==> !final(t)@.ports.contains_key(self.port_id()),
    {
        t.release_at(self.id)
    }
}

} // verus!
