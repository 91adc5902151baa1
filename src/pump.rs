//! The decisions of the two pump workers of one client connection. The
//! workers themselves (sockets, threads, waiting) run around these calls.
use vstd::prelude::*;
use crate::frame::BodyView;
use crate::socks::{
    addr_text, failure_reply, format_addr, parse_addr_text, reply_connect_success, reply_failure,
    success_reply, Addr4, ConnectDest, DestView, addr6_text, format_addr6, is_addr6_text,
    parse_addr6_text, reply_connect_success6, success_reply6, Addr6,
};
use crate::tunnel::{
    close_spec, connect_spec, release_spec, write_spec, MsgView, Tunnel, TunnelPortMsg,
    TunnelReadPort, TunnelWritePort,
};

verus! {

/// The largest chunk the write pump reads from a client at once.
pub const CHUNK_LEN: usize = 10240;

/// The tunnel after the write pump has handled a client's destination.
pub open spec fn start_spec(t: crate::tunnel::TunnelView, id: u32, d: DestView) -> crate::tunnel::TunnelView {
    match d {
        DestView::Addr(a) => connect_spec(t, id, BodyView::Connect(addr_text(a))),
        DestView::Addr6(a) => connect_spec(t, id, BodyView::Connect(addr6_text(a, 0, 0))),
        DestView::DomainName(n, p) => connect_spec(t, id, BodyView::ConnectDomain(n, p)),
        DestView::Invalid => release_spec(close_spec(t, id), id),
    }
}

/// Sends the connect request for a client's destination: an address goes as
/// its text, a domain name with its port for the relay to resolve. The read
/// handle comes back where the read pump is to run; for an invalid request
/// the port is closed, the read handle lets go, and the port is gone.
pub fn start_port(t: &mut Tunnel, w: &TunnelWritePort, r: TunnelReadPort, dest: ConnectDest) -> (reader: Option<TunnelReadPort>)
    requires
        old(t).wf(),
        r.port_id() == w.port_id(),
        dest@ is DomainName ==> dest@->DomainName_0.len() + 2 <= u32::MAX,
    ensures
        final(t).wf(),
        final(t)@ == start_spec(old(t)@, w.port_id(), dest@),
        reader is Some <==> !(dest@ is Invalid),
        reader is Some ==> reader->Some_0.port_id() == w.port_id(),
        dest@ is Invalid && old(t)@.ports.contains_key(w.port_id()) ==> !final(t)@.ports.contains_key(
            w.port_id(),
        ),
{
    match dest {
        ConnectDest::Addr(a) => {
            let text = format_addr(&a);
            w.connect(t, text);
            Some(r)
        },
        ConnectDest::Addr6(a) => {
            let text = format_addr6(&a, 0, 0);
            w.connect(t, text);
            Some(r)
        },
        ConnectDest::DomainName(name, port) => {
            w.connect_domain_name(t, name, port);
            Some(r)
        },
        ConnectDest::Invalid => {
            w.close(t);
            r.release(t);
            None
        },
    }
}

/// One round of the write pump: a chunk read from the client goes to the
/// tunnel; a failed read (`None`) closes the port and ends the pump. The
/// result says whether the pump goes on.
pub fn write_pump_step(t: &mut Tunnel, w: &TunnelWritePort, chunk: Option<Vec<u8>>) -> (go_on: bool)
    requires
        old(t).wf(),
        chunk is Some ==> chunk->Some_0@.len() <= u32::MAX,
    ensures
        final(t).wf(),
        match chunk {
            Some(d) => go_on && final(t)@ == write_spec(old(t)@, w.port_id(), d@),
            None => !go_on && final(t)@ == close_spec(old(t)@, w.port_id()),
        },
{
    match chunk {
        Some(d) => {
            w.write(t, d);
            true
        },
        None => {
            w.close(t);
            false
        },
    }
}

/// The reply for the first event of a port, for IPv4: success with the address of a
/// `ConnectOk` whose text is an IPv4 address, and failure otherwise.
pub open spec fn reply_for(m: MsgView) -> Seq<u8> {
    match m {
        MsgView::ConnectOk(t) => if exists|a: Addr4| t == #[trigger] addr_text(a) {
            success_reply(choose|a: Addr4| t == #[trigger] addr_text(a))
        } else {
            failure_reply()
        },
        _ => failure_reply(),
    }
}

/// The reply the read pump gives its client for the first event of the port.
/// An IPv4 text gets exactly the reply that `reply_for` states; an IPv6 text
/// gets the success reply with the address it is the text of; anything else
/// gets the failure reply.
pub fn first_reply(m: &TunnelPortMsg) -> (r: Vec<u8>)
    ensures
        !(m@ is ConnectOk) ==> r@ == failure_reply(),
        (m@ is ConnectOk && exists|a: Addr4| m@->ConnectOk_0 == #[trigger] addr_text(a)) ==> r@
            == reply_for(m@),
        (m@ is ConnectOk && exists|a: Addr6| is_addr6_text(m@->ConnectOk_0, a)) ==> exists|a: Addr6|
            is_addr6_text(m@->ConnectOk_0, a) && r@ == #[trigger] success_reply6(a),
        r@ == reply_for(m@) || exists|a: Addr6| is_addr6_text(m@->ConnectOk_0, a) && r@
            == #[trigger] success_reply6(a),
{
    match m {
        TunnelPortMsg::ConnectOk(text) => {
            if text.len() > 0 && text[0] == 91 {
                proof {
                    assert forall|a: Addr4| text@ != #[trigger] addr_text(a) by {
                        crate::socks::lemma_starts_with_digit(a);
                    }
                }
                match parse_addr6_text(text.as_slice()) {
                    Some(a) => reply_connect_success6(&a),
                    None => reply_failure(),
                }
            } else {
                proof {
                    assert forall|a: Addr6| !is_addr6_text(text@, a) by {
                        if is_addr6_text(text@, a) {
                            crate::socks::lemma_addr6_text_starts(text@, a);
                        }
                    }
                }
                match parse_addr_text(text.as_slice()) {
                    Some(a) => reply_connect_success(&a),
                    None => reply_failure(),
                }
            }
        },
        _ => reply_failure(),
    }
}

/// One round of the read pump after the reply: the bytes of a data event go
/// to the client; any other event ends the pump (`None`).
pub fn read_pump_step(m: TunnelPortMsg) -> (r: Option<Vec<u8>>)
    ensures
        match m@ {
            MsgView::Data(d) => r is Some && r->Some_0@ == d,
            _ => r is None,
        },
{
    match m {
        TunnelPortMsg::Data(d) => Some(d),
        _ => None,
    }
}

} // verus!
