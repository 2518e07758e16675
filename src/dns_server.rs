use vstd::prelude::*;

use crate::dns_packet::{
    lemma_packet_round_trip, packet_bytes, packet_from, read_back, valid_question, valid_record,
    PacketView,
};
use crate::settings::DnsSettings;
use crate::utils::{lemma_u16_round_trip, u16_at, u16_be};

verus! {

/// Largest UDP message read or sent.
pub const UDP_MESSAGE_CAP: usize = 512;

/// The UDP transport: one receive loop, replies from the workers.
pub struct DnsUdpServer {
    pub settings: DnsSettings,
}

/// The TCP transport: one accept loop; each connection carries one
/// length-prefixed message each way.
pub struct DnsTcpServer {
    pub settings: DnsSettings,
}

impl DnsUdpServer {
    pub fn new(settings: DnsSettings) -> (r: DnsUdpServer)
        ensures
            r.settings == settings,
    {
        DnsUdpServer { settings }
    }
}

impl DnsTcpServer {
    pub fn new(settings: DnsSettings) -> (r: DnsTcpServer)
        ensures
            r.settings == settings,
    {
        DnsTcpServer { settings }
    }
}

/// A message framed for TCP: its length as two big-endian bytes, then the
/// message. `None` where the message is too long for the prefix.
pub fn frame_tcp_message(body: &Vec<u8>) -> (r: Option<Vec<u8>>)
    ensures
        r is Some <==> body@.len() <= 65535,
        r is Some ==> r->Some_0@ == u16_be(body@.len() as u16) + body@,
{
    if body.len() > 65535 {
        return None;
    }
    let mut out = crate::utils::u16_to_bytes(body.len() as u16);
    let mut copy = vstd::slice::slice_to_vec(body.as_slice());
    out.append(&mut copy);
    Some(out)
}


/// A message of valid form framed for TCP: the prefix counts the bytes that
/// follow, and those bytes read back as the message, names lowercased.
pub proof fn lemma_tcp_frame_round_trip(p: PacketView)
    requires
        forall|k: int| 0 <= k < p.questions.len() ==> valid_question(#[trigger] p.questions[k]),
        forall|k: int| 0 <= k < p.answers.len() ==> valid_record(#[trigger] p.answers[k]),
        forall|k: int| 0 <= k < p.authorities.len() ==> valid_record(#[trigger] p.authorities[k]),
        forall|k: int| 0 <= k < p.additionals.len() ==> valid_record(#[trigger] p.additionals[k]),
        p.questions.len() < 65536,
        p.answers.len() < 65536,
        p.authorities.len() < 65536,
        p.additionals.len() < 65536,
        packet_bytes(p).len() <= 65535,
    ensures
        ({
            let body = packet_bytes(p);
            let framed = u16_be(body.len() as u16) + body;
            &&& u16_at(framed, 0) as int == framed.len() - 2
            &&& packet_from(framed.subrange(2, framed.len() as int)) == Ok::<PacketView, crate::utils::Malformed>(
                read_back(p),
            )
        }),
{
    lemma_frame(packet_bytes(p));
    lemma_packet_round_trip(p);
}

proof fn lemma_frame(body: Seq<u8>)
    requires
        body.len() <= 65535,
    ensures
        ({
            let framed = u16_be(body.len() as u16) + body;
            &&& u16_at(framed, 0) as int == framed.len() - 2
            &&& framed.subrange(2, framed.len() as int) == body
        }),
{
    let framed = u16_be(body.len() as u16) + body;
    assert(framed.subrange(0, 2) =~= u16_be(body.len() as u16));
    lemma_u16_round_trip(body.len() as u16, framed, 0);
    assert(framed.subrange(2, framed.len() as int) =~= body);
}

} // verus!
