//! The transaction layer's computations: building queries, encoding them
//! for UDP or TCP, framing TCP messages and numbering transactions. Sending
//! and receiving is left to the caller.

use vstd::prelude::*;
use crate::buffer::{u16_bytes, BytePacketBuffer, PacketBuffer, VectorPacketBuffer, UDP_BUFFER_SIZE};
use crate::protocol::{
    encode_message, question_views, DnsHeader, DnsPacket, DnsQuestion, ProtocolError, QueryType,
};

verus! {

/// Errors of a query transaction.
#[derive(Debug, Clone, PartialEq, Eq)]
pub enum ClientError {
    /// The query or the response could not be encoded or decoded.
    Protocol(ProtocolError),
    /// The network failed; the text describes how.
    Io(String),
    /// The pending-query table's lock was poisoned.
    PoisonedLock,
    /// The response channel closed before an answer arrived.
    LookupFailed,
    /// No answer arrived within the time allowed.
    TimeOut,
}

/// The largest message sent or received over UDP.
pub const UDP_MESSAGE_SIZE: usize = UDP_BUFFER_SIZE;

/// The header of a query with transaction `id` asking one question.
pub open spec fn query_header(id: u16, recursive: bool) -> DnsHeader {
    DnsHeader { id, questions: 1, recursion_desired: recursive, ..DnsHeader::empty() }
}

/// The query for (`qname`, `qtype`) with transaction `id`; `recursive` sets RD.
pub fn build_query(id: u16, qname: &str, qtype: QueryType, recursive: bool) -> (r: DnsPacket)
    ensures
        r.header == query_header(id, recursive),
        question_views(r.questions@) == seq![(qname@, qtype)],
        r.questions@.len() == 1,
        r.answers@.len() == 0,
        r.authorities@.len() == 0,
        r.resources@.len() == 0,
{
    let mut packet = DnsPacket::new();
    packet.header.id = id;
    packet.header.questions = 1;
    packet.header.recursion_desired = recursive;
    packet.questions.push(DnsQuestion::new(String::from_str(qname), qtype));
    assert(question_views(packet.questions@) =~= seq![(qname@, qtype)]);
    packet
}

/// The transaction id drawn from counter value `seq`: its low 16 bits.
pub fn transaction_id(seq: usize) -> (r: u16)
    ensures
        r == seq % 0x10000,
{
    (seq % 0x10000) as u16
}

/// The octets of `packet` encoded from position 0 of a growable buffer
/// within `max_size` octets (see `DnsPacket::write`).
pub fn encode_packet(packet: &mut DnsPacket, max_size: usize) -> (r: Result<Vec<u8>, ProtocolError>)
    requires
        old(packet).questions@.len() <= 0xFFFF,
        old(packet).answers@.len() <= 0xFFFF,
        old(packet).authorities@.len() <= 0xFFFF,
        old(packet).resources@.len() <= 0xFFFF,
    ensures
        final(packet).questions == old(packet).questions,
        final(packet).answers == old(packet).answers,
        final(packet).authorities == old(packet).authorities,
        final(packet).resources == old(packet).resources,
        !old(packet).names_valid() ==> r is Err,
        old(packet).names_valid() ==> {
            let k = old(packet).fit(max_size as int);
            let h = old(packet).emitted_header(k as int);
            let enc = encode_message(
                h,
                old(packet).questions@,
                old(packet).records().subrange(0, k as int),
                Map::empty(),
                0,
                true,
            );
            &&& final(packet).header == h
            &&& enc.0.len() <= usize::MAX ==> r is Ok && r->Ok_0@ == enc.0
            &&& enc.0.len() > usize::MAX ==> r is Err
        },
{
    let mut buffer = VectorPacketBuffer::new();
    let ghost v0 = buffer@;
    assert(v0.labels =~= Map::<Seq<char>, usize>::empty());
    match packet.write(&mut buffer, max_size) {
        Ok(()) => {
            assert(buffer.buffer@ =~= v0.data.subrange(0, 0) + buffer.buffer@);
            Ok(buffer.buffer)
        },
        Err(e) => Err(e),
    }
}

/// The octets of `packet` encoded into a 512-octet UDP buffer within
/// `max_size` octets; a message that does not fit the buffer fails.
pub fn encode_udp_packet(packet: &mut DnsPacket, max_size: usize) -> (r: Result<Vec<u8>, ProtocolError>)
    requires
        old(packet).questions@.len() <= 0xFFFF,
        old(packet).answers@.len() <= 0xFFFF,
        old(packet).authorities@.len() <= 0xFFFF,
        old(packet).resources@.len() <= 0xFFFF,
    ensures
        final(packet).questions == old(packet).questions,
        final(packet).answers == old(packet).answers,
        final(packet).authorities == old(packet).authorities,
        final(packet).resources == old(packet).resources,
        !old(packet).names_valid() ==> r is Err,
        old(packet).names_valid() ==> {
            let k = old(packet).fit(max_size as int);
            let h = old(packet).emitted_header(k as int);
            let enc = encode_message(
                h,
                old(packet).questions@,
                old(packet).records().subrange(0, k as int),
                Map::empty(),
                0,
                false,
            );
            &&& final(packet).header == h
            &&& enc.0.len() <= UDP_MESSAGE_SIZE ==> r is Ok && r->Ok_0@ == enc.0
            &&& enc.0.len() > UDP_MESSAGE_SIZE ==> r is Err
        },
{
    let mut buffer = BytePacketBuffer::new();
    let ghost v0 = buffer@;
    match packet.write(&mut buffer, max_size) {
        Ok(()) => {
            let end = buffer.pos();
            let mut out: Vec<u8> = Vec::new();
            let mut i: usize = 0;
            while i < end
                invariant
                    i <= end,
                    end == buffer@.cursor,
                    buffer@.wf(),
                    out@ == buffer@.data.subrange(0, i as int),
                decreases end - i,
            {
                out.push(buffer.buf[i]);
                i = i + 1;
                assert(out@ =~= buffer@.data.subrange(0, i as int));
            }
            Ok(out)
        },
        Err(e) => Err(e),
    }
}

/// The two-octet big-endian length that precedes a message over TCP.
pub fn packet_length_prefix(len: usize) -> (r: [u8; 2])
    requires
        len <= 0xFFFF,
    ensures
        r@ == u16_bytes(len as int),
{
    let r = [(len / 256) as u8, (len % 256) as u8];
    assert(r@ =~= u16_bytes(len as int));
    r
}

/// The message length carried by a two-octet TCP prefix.
pub fn parse_packet_length(prefix: [u8; 2]) -> (r: u16)
    ensures
        r == prefix[0] * 256 + prefix[1],
{
    (prefix[0] as u16) * 256 + (prefix[1] as u16)
}

} // verus!
