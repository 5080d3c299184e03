//! DNS message model and its wire encoding: query types, result codes,
//! header, questions, resource records and whole packets.

use vstd::prelude::*;
use vstd::string::*;
use vstd::utf8::encode_utf8;
use crate::buffer::{
    be16, be32, encode_name, put_bytes, read_name, u16_bytes, u32_bytes, valid_name,
    BufferError, BufferView, PacketBuffer, VectorPacketBuffer, lemma_bytes_as_encoding,
    lemma_wrote_seq, name_is_valid, text_of_octets, decoded_text,
    encode_name_from, lemma_name_round_trip, lower_chars,
};
use vstd::utf8::{encode_utf8_decode_utf8, encode_utf8_valid_utf8};

verus! {

/// Errors of the message codec.
#[derive(Debug, Clone, Copy, PartialEq, Eq, Structural)]
pub enum ProtocolError {
    /// A buffer operation or the name codec failed.
    Buffer(BufferError),
}

/// DNS query (record) types.
#[derive(PartialEq, Eq, Debug, Clone, Copy, Hash, Structural)]
pub enum QueryType {
    /// Any other type, by its numeric code.
    UNKNOWN(u16),
    /// IPv4 address (1).
    A,
    /// Authoritative name server (2).
    NS,
    /// Canonical name (5).
    CNAME,
    /// Start of authority (6).
    SOA,
    /// Mail exchange (15).
    MX,
    /// Text (16).
    TXT,
    /// IPv6 address (28).
    AAAA,
    /// Service locator (33).
    SRV,
    /// EDNS options pseudo-record (41).
    OPT,
}

impl QueryType {
    /// The numeric code of a type.
    pub open spec fn code(self) -> u16 {
        match self {
            QueryType::UNKNOWN(x) => x,
            QueryType::A => 1,
            QueryType::NS => 2,
            QueryType::CNAME => 5,
            QueryType::SOA => 6,
            QueryType::MX => 15,
            QueryType::TXT => 16,
            QueryType::AAAA => 28,
            QueryType::SRV => 33,
            QueryType::OPT => 41,
        }
    }

    /// The type with a numeric code; codes without a name become `UNKNOWN`.
    pub open spec fn of_code(num: u16) -> QueryType {
        match num {
            1 => QueryType::A,
            2 => QueryType::NS,
            5 => QueryType::CNAME,
            6 => QueryType::SOA,
            15 => QueryType::MX,
            16 => QueryType::TXT,
            28 => QueryType::AAAA,
            33 => QueryType::SRV,
            41 => QueryType::OPT,
            _ => QueryType::UNKNOWN(num),
        }
    }

    /// The numeric code of this type.
    pub fn to_num(&self) -> (r: u16)
        ensures
            r == self.code(),
    {
        match *self {
            QueryType::UNKNOWN(x) => x,
            QueryType::A => 1,
            QueryType::NS => 2,
            QueryType::CNAME => 5,
            QueryType::SOA => 6,
            QueryType::MX => 15,
            QueryType::TXT => 16,
            QueryType::AAAA => 28,
            QueryType::SRV => 33,
            QueryType::OPT => 41,
        }
    }

    /// The type with numeric code `num`.
    pub fn from_num(num: u16) -> (r: QueryType)
        ensures
            r == QueryType::of_code(num),
    {
        match num {
            1 => QueryType::A,
            2 => QueryType::NS,
            5 => QueryType::CNAME,
            6 => QueryType::SOA,
            15 => QueryType::MX,
            16 => QueryType::TXT,
            28 => QueryType::AAAA,
            33 => QueryType::SRV,
            41 => QueryType::OPT,
            _ => QueryType::UNKNOWN(num),
        }
    }
}

/// Every numeric code survives the trip through `QueryType`, unknown codes included.
pub proof fn lemma_query_type_code_round_trip(num: u16)
    ensures
        QueryType::of_code(num).code() == num,
{
}

/// A time-to-live that takes no part in record equality: two records that
/// differ only in their TTL compare equal.
#[derive(Copy, Clone, Debug)]
pub struct TransientTtl(pub u32);

impl PartialEq for TransientTtl {
    fn eq(&self, _other: &Self) -> (r: bool) {
        true
    }
}

impl vstd::std_specs::cmp::PartialEqSpecImpl for TransientTtl {
    open spec fn obeys_eq_spec() -> bool {
        true
    }

    open spec fn eq_spec(&self, _other: &TransientTtl) -> bool {
        true
    }
}

impl Eq for TransientTtl {
}

impl TransientTtl {
    /// A TTL of `value` seconds.
    pub fn new(value: u32) -> (r: Self)
        ensures
            r.0 == value,
    {
        TransientTtl(value)
    }

    /// The TTL in seconds.
    pub fn value(&self) -> (r: u32)
        ensures
            r == self.0,
    {
        self.0
    }
}

/// The response code of a message.
#[derive(Copy, Clone, Debug, PartialEq, Eq, Structural)]
pub enum ResultCode {
    NOERROR,
    FORMERR,
    SERVFAIL,
    NXDOMAIN,
    NOTIMP,
    REFUSED,
    /// Any other code, kept as it came.
    UNKNOWN(u8),
}

impl Default for ResultCode {
    fn default() -> (r: Self)
        ensures
            r == ResultCode::NOERROR,
    {
        ResultCode::NOERROR
    }
}

impl ResultCode {
    /// The numeric code.
    pub open spec fn code(self) -> u8 {
        match self {
            ResultCode::NOERROR => 0,
            ResultCode::FORMERR => 1,
            ResultCode::SERVFAIL => 2,
            ResultCode::NXDOMAIN => 3,
            ResultCode::NOTIMP => 4,
            ResultCode::REFUSED => 5,
            ResultCode::UNKNOWN(n) => n,
        }
    }

    /// The result code with a numeric code; codes without a name become `UNKNOWN`.
    pub open spec fn of_code(num: u8) -> ResultCode {
        match num {
            0 => ResultCode::NOERROR,
            1 => ResultCode::FORMERR,
            2 => ResultCode::SERVFAIL,
            3 => ResultCode::NXDOMAIN,
            4 => ResultCode::NOTIMP,
            5 => ResultCode::REFUSED,
            _ => ResultCode::UNKNOWN(num),
        }
    }

    /// The result code with numeric code `num`.
    pub fn from_num(num: u8) -> (r: ResultCode)
        ensures
            r == ResultCode::of_code(num),
    {
        match num {
            0 => ResultCode::NOERROR,
            1 => ResultCode::FORMERR,
            2 => ResultCode::SERVFAIL,
            3 => ResultCode::NXDOMAIN,
            4 => ResultCode::NOTIMP,
            5 => ResultCode::REFUSED,
            _ => ResultCode::UNKNOWN(num),
        }
    }

    /// The numeric code of this result code.
    pub fn to_num(&self) -> (r: u8)
        ensures
            r == self.code(),
    {
        match *self {
            ResultCode::NOERROR => 0,
            ResultCode::FORMERR => 1,
            ResultCode::SERVFAIL => 2,
            ResultCode::NXDOMAIN => 3,
            ResultCode::NOTIMP => 4,
            ResultCode::REFUSED => 5,
            ResultCode::UNKNOWN(n) => n,
        }
    }
}

/// 1 for a set flag, 0 otherwise.
pub open spec fn bit(b: bool) -> int {
    if b {
        1
    } else {
        0
    }
}

/// Size of the fixed message header.
pub const HEADER_SIZE: usize = 12;

/// The fixed 12-octet header of a message.
#[derive(Clone, Debug, PartialEq, Eq, Structural)]
pub struct DnsHeader {
    /// Transaction id.
    pub id: u16,
    pub recursion_desired: bool,
    pub truncated_message: bool,
    pub authoritative_answer: bool,
    /// Operation code (4 bits on the wire).
    pub opcode: u8,
    /// Query (false) or response (true).
    pub response: bool,
    /// Response code (4 bits on the wire).
    pub rescode: ResultCode,
    pub checking_disabled: bool,
    pub authed_data: bool,
    /// Reserved bit.
    pub z: bool,
    pub recursion_available: bool,
    pub questions: u16,
    pub answers: u16,
    pub authoritative_entries: u16,
    pub resource_entries: u16,
}

impl DnsHeader {
    /// The first flag octet: RD, TC, AA, opcode, QR from the low bit up.
    pub open spec fn flags_hi(&self) -> int {
        bit(self.recursion_desired) + 2 * bit(self.truncated_message) + 4 * bit(
            self.authoritative_answer,
        ) + 8 * (self.opcode % 16) + 128 * bit(self.response)
    }

    /// The second flag octet: RCODE, CD, AD, Z, RA from the low bit up.
    pub open spec fn flags_lo(&self) -> int {
        self.rescode.code() % 16 + 16 * bit(self.checking_disabled) + 32 * bit(self.authed_data)
            + 64 * bit(self.z) + 128 * bit(self.recursion_available)
    }

    /// The 12 octets of this header on the wire.
    pub open spec fn wire(&self) -> Seq<u8> {
        u16_bytes(self.id as int) + seq![self.flags_hi() as u8, self.flags_lo() as u8] + u16_bytes(
            self.questions as int,
        ) + u16_bytes(self.answers as int) + u16_bytes(self.authoritative_entries as int)
            + u16_bytes(self.resource_entries as int)
    }

    /// The header held by the 12 octets of `d` at `p`.
    pub open spec fn parse(d: Seq<u8>, p: int) -> DnsHeader {
        let b1 = d[p + 2];
        let b2 = d[p + 3];
        DnsHeader {
            id: be16(d, p) as u16,
            recursion_desired: b1 % 2 == 1,
            truncated_message: (b1 / 2) % 2 == 1,
            authoritative_answer: (b1 / 4) % 2 == 1,
            opcode: ((b1 / 8) % 16) as u8,
            response: b1 >= 128,
            rescode: ResultCode::of_code((b2 % 16) as u8),
            checking_disabled: (b2 / 16) % 2 == 1,
            authed_data: (b2 / 32) % 2 == 1,
            z: (b2 / 64) % 2 == 1,
            recursion_available: b2 >= 128,
            questions: be16(d, p + 4) as u16,
            answers: be16(d, p + 6) as u16,
            authoritative_entries: be16(d, p + 8) as u16,
            resource_entries: be16(d, p + 10) as u16,
        }
    }

    /// The header with every field zero, false or NOERROR.
    pub open spec fn empty() -> DnsHeader {
        DnsHeader {
            id: 0,
            recursion_desired: false,
            truncated_message: false,
            authoritative_answer: false,
            opcode: 0,
            response: false,
            rescode: ResultCode::NOERROR,
            checking_disabled: false,
            authed_data: false,
            z: false,
            recursion_available: false,
            questions: 0,
            answers: 0,
            authoritative_entries: 0,
            resource_entries: 0,
        }
    }

    /// A header with every field zero, false or NOERROR.
    pub fn new() -> (r: Self)
        ensures
            r == DnsHeader::empty(),
    {
        DnsHeader {
            id: 0,
            recursion_desired: false,
            truncated_message: false,
            authoritative_answer: false,
            opcode: 0,
            response: false,
            rescode: ResultCode::NOERROR,
            checking_disabled: false,
            authed_data: false,
            z: false,
            recursion_available: false,
            questions: 0,
            answers: 0,
            authoritative_entries: 0,
            resource_entries: 0,
        }
    }

    /// The first flag octet.
    fn flags_hi_octet(&self) -> (r: u8)
        ensures
            r == self.flags_hi(),
    {
        let rd: u8 = if self.recursion_desired { 1 } else { 0 };
        let tc: u8 = if self.truncated_message { 1 } else { 0 };
        let aa: u8 = if self.authoritative_answer { 1 } else { 0 };
        let qr: u8 = if self.response { 1 } else { 0 };
        rd + 2 * tc + 4 * aa + 8 * (self.opcode % 16) + 128 * qr
    }

    /// The second flag octet.
    fn flags_lo_octet(&self) -> (r: u8)
        ensures
            r == self.flags_lo(),
    {
        let cd: u8 = if self.checking_disabled { 1 } else { 0 };
        let ad: u8 = if self.authed_data { 1 } else { 0 };
        let z: u8 = if self.z { 1 } else { 0 };
        let ra: u8 = if self.recursion_available { 1 } else { 0 };
        (self.rescode.to_num() % 16) + 16 * cd + 32 * ad + 64 * z + 128 * ra
    }

    /// Writes the 12 header octets at the cursor.
    pub fn write<T: PacketBuffer>(&self, buffer: &mut T) -> (r: Result<(), ProtocolError>)
        requires
            old(buffer)@.wf(),
        ensures
            old(buffer)@.wrote_bytes(
                final(buffer)@,
                self.wire(),
                match r {
                    Ok(()) => Ok(()),
                    Err(ProtocolError::Buffer(e)) => Err(e),
                },
            ),
    {
        let f1 = self.flags_hi_octet();
        let f2 = self.flags_lo_octet();
        let bytes = [
            (self.id / 256) as u8,
            (self.id % 256) as u8,
            f1,
            f2,
            (self.questions / 256) as u8,
            (self.questions % 256) as u8,
            (self.answers / 256) as u8,
            (self.answers % 256) as u8,
            (self.authoritative_entries / 256) as u8,
            (self.authoritative_entries % 256) as u8,
            (self.resource_entries / 256) as u8,
            (self.resource_entries % 256) as u8,
        ];
        assert(bytes@ =~= self.wire());
        match buffer.write_all(&bytes) {
            Ok(()) => Ok(()),
            Err(e) => Err(ProtocolError::Buffer(e)),
        }
    }

    /// The size of a header on the wire.
    pub fn binary_len(&self) -> (r: usize)
        ensures
            r == HEADER_SIZE,
    {
        HEADER_SIZE
    }

    /// Reads a header at the cursor into `self`.
    pub fn read<T: PacketBuffer>(&mut self, buffer: &mut T) -> (r: Result<(), ProtocolError>)
        requires
            old(buffer)@.wf(),
        ensures
            old(buffer)@.read_past(final(buffer)@, 12),
            old(buffer)@.cursor + 12 <= old(buffer)@.data.len() ==> r is Ok && *final(self)
                == DnsHeader::parse(old(buffer)@.data, old(buffer)@.cursor),
            old(buffer)@.cursor + 12 > old(buffer)@.data.len() ==> r == Err::<(), ProtocolError>(
                ProtocolError::Buffer(BufferError::EndOfBuffer),
            ),
    {
        let start = buffer.pos();
        let b = match buffer.get_range(start, 12) {
            Ok(b) => b,
            Err(e) => return Err(ProtocolError::Buffer(e)),
        };
        let b1 = b[2];
        let b2 = b[3];
        self.id = (b[0] as u16) * 256 + (b[1] as u16);
        self.recursion_desired = b1 % 2 == 1;
        self.truncated_message = (b1 / 2) % 2 == 1;
        self.authoritative_answer = (b1 / 4) % 2 == 1;
        self.opcode = (b1 / 8) % 16;
        self.response = b1 >= 128;
        self.rescode = ResultCode::from_num(b2 % 16);
        self.checking_disabled = (b2 / 16) % 2 == 1;
        self.authed_data = (b2 / 32) % 2 == 1;
        self.z = (b2 / 64) % 2 == 1;
        self.recursion_available = b2 >= 128;
        self.questions = (b[4] as u16) * 256 + (b[5] as u16);
        self.answers = (b[6] as u16) * 256 + (b[7] as u16);
        self.authoritative_entries = (b[8] as u16) * 256 + (b[9] as u16);
        self.resource_entries = (b[10] as u16) * 256 + (b[11] as u16);
        let _ = buffer.step(12);
        Ok(())
    }
}

/// The bits of an octet assembled from three flags, a 4-bit field and a top flag.
proof fn lemma_octet_fields(b0: int, b1: int, b2: int, f: int, b7: int)
    requires
        0 <= b0 < 2,
        0 <= b1 < 2,
        0 <= b2 < 2,
        0 <= f < 16,
        0 <= b7 < 2,
    ensures
        ({
            let x = b0 + 2 * b1 + 4 * b2 + 8 * f + 128 * b7;
            &&& x % 2 == b0
            &&& (x / 2) % 2 == b1
            &&& (x / 4) % 2 == b2
            &&& (x / 8) % 16 == f
            &&& (x >= 128) == (b7 == 1)
        }),
{
}

/// The bits of an octet assembled from a 4-bit field and four flags.
proof fn lemma_octet_fields_low(f: int, b4: int, b5: int, b6: int, b7: int)
    requires
        0 <= f < 16,
        0 <= b4 < 2,
        0 <= b5 < 2,
        0 <= b6 < 2,
        0 <= b7 < 2,
    ensures
        ({
            let x = f + 16 * b4 + 32 * b5 + 64 * b6 + 128 * b7;
            &&& x % 16 == f
            &&& (x / 16) % 2 == b4
            &&& (x / 32) % 2 == b5
            &&& (x / 64) % 2 == b6
            &&& (x >= 128) == (b7 == 1)
        }),
{
}

/// The 16-bit value read back from its two octets.
proof fn lemma_u16_octets(d: Seq<u8>, p: int, v: int)
    requires
        0 <= v < 0x10000,
        0 <= p,
        p + 2 <= d.len(),
        d.subrange(p, p + 2) == u16_bytes(v),
    ensures
        be16(d, p) == v,
{
    assert(d[p] == u16_bytes(v)[0]);
    assert(d[p + 1] == u16_bytes(v)[1]);
}

/// Reading back a written header gives the header, when its opcode fits in
/// 4 bits and its result code is the canonical one for a 4-bit code.
#[verifier::rlimit(40)]
pub proof fn lemma_header_round_trip(h: DnsHeader, d: Seq<u8>, p: int)
    requires
        h.opcode < 16,
        h.rescode.code() < 16,
        h.rescode == ResultCode::of_code(h.rescode.code()),
        0 <= p,
        p + 12 <= d.len(),
        d.subrange(p, p + 12) == h.wire(),
    ensures
        DnsHeader::parse(d, p) == h,
{
    let w = h.wire();
    assert(d.subrange(p, p + 2) =~= w.subrange(0, 2));
    assert(d.subrange(p + 4, p + 6) =~= w.subrange(4, 6));
    assert(d.subrange(p + 6, p + 8) =~= w.subrange(6, 8));
    assert(d.subrange(p + 8, p + 10) =~= w.subrange(8, 10));
    assert(d.subrange(p + 10, p + 12) =~= w.subrange(10, 12));
    assert(w.subrange(0, 2) =~= u16_bytes(h.id as int));
    assert(w.subrange(4, 6) =~= u16_bytes(h.questions as int));
    assert(w.subrange(6, 8) =~= u16_bytes(h.answers as int));
    assert(w.subrange(8, 10) =~= u16_bytes(h.authoritative_entries as int));
    assert(w.subrange(10, 12) =~= u16_bytes(h.resource_entries as int));
    lemma_u16_octets(d, p, h.id as int);
    lemma_u16_octets(d, p + 4, h.questions as int);
    lemma_u16_octets(d, p + 6, h.answers as int);
    lemma_u16_octets(d, p + 8, h.authoritative_entries as int);
    lemma_u16_octets(d, p + 10, h.resource_entries as int);
    assert(d[p + 2] == w[2]);
    assert(d[p + 3] == w[3]);
    lemma_octet_fields(
        bit(h.recursion_desired),
        bit(h.truncated_message),
        bit(h.authoritative_answer),
        h.opcode as int,
        bit(h.response),
    );
    lemma_octet_fields_low(
        h.rescode.code() as int,
        bit(h.checking_disabled),
        bit(h.authed_data),
        bit(h.z),
        bit(h.recursion_available),
    );
    let r = DnsHeader::parse(d, p);
    assert(r.opcode == h.opcode);
    assert(r.rescode == h.rescode);
    assert(r.recursion_desired == h.recursion_desired);
    assert(r.truncated_message == h.truncated_message);
    assert(r.authoritative_answer == h.authoritative_answer);
    assert(r.response == h.response);
    assert(r.checking_disabled == h.checking_disabled);
    assert(r.authed_data == h.authed_data);
    assert(r.z == h.z);
    assert(r.recursion_available == h.recursion_available);
}

/// The buffer-level outcome carried by a codec outcome.
pub open spec fn buffer_outcome<V>(r: Result<V, ProtocolError>) -> Result<(), BufferError> {
    match r {
        Ok(_) => Ok(()),
        Err(ProtocolError::Buffer(e)) => Err(e),
    }
}

/// A failed write of a prefix makes every longer write fail.
pub proof fn lemma_fail_extends(
    v0: BufferView,
    v1: BufferView,
    e: (Seq<u8>, Map<Seq<char>, usize>),
    rest: Seq<u8>,
    r: Result<(), BufferError>,
)
    requires
        v0.wf(),
        v0.wrote_encoding(v1, e, r),
        r is Err,
    ensures
        !v0.room((e.0 + rest).len() as int),
        r == Err::<(), BufferError>(BufferError::EndOfBuffer),
{
}

/// One field of record data, in wire order.
pub enum Piece {
    /// A compressible domain name.
    Name(String),
    /// One octet.
    Byte(u8),
    /// A big-endian 16-bit value.
    Word(u16),
    /// A big-endian 32-bit value.
    Long(u32),
    /// The UTF-8 octets of a text.
    Text(String),
}

/// Whether a field can be written: names must be valid.
pub open spec fn piece_valid(p: Piece) -> bool {
    match p {
        Piece::Name(s) => valid_name(s@),
        _ => true,
    }
}

/// Whether every field can be written.
pub open spec fn pieces_valid(ps: Seq<Piece>) -> bool {
    forall|i: int| 0 <= i < ps.len() ==> piece_valid(#[trigger] ps[i])
}

/// The encoding of one field written at `q` with suffix map `m`.
pub open spec fn encode_piece(p: Piece, m: Map<Seq<char>, usize>, q: int, remember: bool) -> (
    Seq<u8>,
    Map<Seq<char>, usize>,
) {
    match p {
        Piece::Name(s) => encode_name(s@, m, q, remember),
        Piece::Byte(b) => (seq![b], m),
        Piece::Word(w) => (u16_bytes(w as int), m),
        Piece::Long(l) => (u32_bytes(l as int), m),
        Piece::Text(t) => (encode_utf8(t@), m),
    }
}

/// The encoding of a list of fields written one after another from `q`.
pub open spec fn encode_pieces(ps: Seq<Piece>, m: Map<Seq<char>, usize>, q: int, remember: bool) -> (
    Seq<u8>,
    Map<Seq<char>, usize>,
)
    decreases ps.len(),
{
    if ps.len() == 0 {
        (seq![], m)
    } else {
        let a = encode_pieces(ps.drop_last(), m, q, remember);
        let b = encode_piece(ps.last(), a.1, q + a.0.len(), remember);
        (a.0 + b.0, b.1)
    }
}

/// A prefix of a list of fields encodes to no more octets than the list.
proof fn lemma_pieces_prefix_len(
    ps: Seq<Piece>,
    j: int,
    m: Map<Seq<char>, usize>,
    q: int,
    remember: bool,
)
    requires
        0 <= j <= ps.len(),
    ensures
        encode_pieces(ps.subrange(0, j), m, q, remember).0.len() <= encode_pieces(
            ps,
            m,
            q,
            remember,
        ).0.len(),
    decreases ps.len(),
{
    if j == ps.len() {
        assert(ps.subrange(0, j) =~= ps);
    } else {
        assert(ps.subrange(0, j) =~= ps.drop_last().subrange(0, j));
        lemma_pieces_prefix_len(ps.drop_last(), j, m, q, remember);
    }
}

/// The encoding of a resource record with owner `domain`, type `code`,
/// class IN, `ttl` and data `rdata`; RDLENGTH is the data's length modulo 2^16.
pub open spec fn encode_parts(
    domain: Seq<char>,
    code: u16,
    ttl: u32,
    rdata: Seq<Piece>,
    m: Map<Seq<char>, usize>,
    q: int,
    remember: bool,
) -> (Seq<u8>, Map<Seq<char>, usize>) {
    let e = encode_name(domain, m, q, remember);
    let pre = e.0 + u16_bytes(code as int) + u16_bytes(1) + u32_bytes(ttl as int);
    let rd = encode_pieces(rdata, e.1, q + pre.len() + 2, remember);
    (pre + u16_bytes((rd.0.len() % 0x10000) as int) + rd.0, rd.1)
}

/// Writes one field at the cursor.
fn write_piece<T: PacketBuffer>(buffer: &mut T, p: &Piece) -> (r: Result<(), BufferError>)
    requires
        old(buffer)@.wf(),
        piece_valid(*p),
    ensures
        old(buffer)@.wrote_encoding(
            final(buffer)@,
            encode_piece(*p, old(buffer)@.labels, old(buffer)@.cursor, old(buffer)@.remembers),
            r,
        ),
{
    let ghost v0 = buffer@;
    match p {
        Piece::Name(s) => buffer.write_qname(s.as_str()),
        Piece::Byte(b) => {
            let r = buffer.write_u8(*b);
            proof {
                lemma_bytes_as_encoding(v0, buffer@, seq![*b], r);
            }
            r
        },
        Piece::Word(w) => {
            let r = buffer.write_u16(*w);
            proof {
                lemma_bytes_as_encoding(v0, buffer@, u16_bytes(*w as int), r);
            }
            r
        },
        Piece::Long(l) => {
            let r = buffer.write_u32(*l);
            proof {
                lemma_bytes_as_encoding(v0, buffer@, u32_bytes(*l as int), r);
            }
            r
        },
        Piece::Text(t) => {
            let r = buffer.write_all(t.as_str().as_bytes());
            proof {
                lemma_bytes_as_encoding(v0, buffer@, encode_utf8(t@), r);
            }
            r
        },
    }
}

/// Writes a list of fields at the cursor, one after another.
fn write_pieces<T: PacketBuffer>(buffer: &mut T, ps: &Vec<Piece>) -> (r: Result<(), BufferError>)
    requires
        old(buffer)@.wf(),
        pieces_valid(ps@),
    ensures
        old(buffer)@.wrote_encoding(
            final(buffer)@,
            encode_pieces(ps@, old(buffer)@.labels, old(buffer)@.cursor, old(buffer)@.remembers),
            r,
        ),
{
    let ghost v0 = buffer@;
    let mut i: usize = 0;
    assert(ps@.subrange(0, 0) =~= Seq::<Piece>::empty());
    assert(v0.data.subrange(0, v0.cursor) + seq![] + v0.data.subrange(v0.cursor, v0.data.len() as int) =~= v0.data);
    while i < ps.len()
        invariant
            v0 == old(buffer)@,
            v0.wf(),
            i <= ps@.len(),
            pieces_valid(ps@),
            v0.wrote_encoding(
                buffer@,
                encode_pieces(ps@.subrange(0, i as int), v0.labels, v0.cursor, v0.remembers),
                Ok(()),
            ),
            v0.room(encode_pieces(ps@.subrange(0, i as int), v0.labels, v0.cursor, v0.remembers).0.len() as int),
        decreases ps@.len() - i,
    {
        let ghost a = encode_pieces(ps@.subrange(0, i as int), v0.labels, v0.cursor, v0.remembers);
        let ghost v1 = buffer@;
        let r = write_piece(buffer, &ps[i]);
        let ghost b = encode_piece(ps@[i as int], v1.labels, v1.cursor, v1.remembers);
        proof {
            assert(ps@.subrange(0, i + 1).drop_last() =~= ps@.subrange(0, i as int));
            assert(ps@.subrange(0, i + 1).last() == ps@[i as int]);
            lemma_wrote_seq(v0, v1, buffer@, a, b, Ok(()), r);
        }
        if r.is_err() {
            proof {
                lemma_pieces_prefix_len(ps@, i + 1, v0.labels, v0.cursor, v0.remembers);
            }
            return r;
        }
        i = i + 1;
    }
    assert(ps@.subrange(0, i as int) =~= ps@);
    Ok(())
}

/// Overwriting the two placeholder octets gives the encoding with the value in place.
proof fn lemma_patch(d: Seq<u8>, c: int, a: Seq<u8>, b: Seq<u8>, v: int)
    requires
        0 <= c <= d.len(),
        0 <= v < 0x10000,
    ensures
        put_bytes(d, c, a + seq![0u8, 0u8] + b).update(c + a.len(), (v / 256) as u8).update(
            c + a.len() + 1,
            (v % 256) as u8,
        ) == put_bytes(d, c, a + u16_bytes(v) + b),
{
    assert(put_bytes(d, c, a + seq![0u8, 0u8] + b).update(c + a.len(), (v / 256) as u8).update(
        c + a.len() + 1,
        (v % 256) as u8,
    ) =~= put_bytes(d, c, a + u16_bytes(v) + b));
}

/// Writes a resource record: owner, type, class IN, TTL, then RDLENGTH
/// back-patched after the data.
fn write_parts<T: PacketBuffer>(
    buffer: &mut T,
    domain: &String,
    code: u16,
    ttl: u32,
    rdata: &Vec<Piece>,
) -> (r: Result<(), BufferError>)
    requires
        old(buffer)@.wf(),
        valid_name(domain@),
        pieces_valid(rdata@),
    ensures
        old(buffer)@.wrote_encoding(
            final(buffer)@,
            encode_parts(
                domain@,
                code,
                ttl,
                rdata@,
                old(buffer)@.labels,
                old(buffer)@.cursor,
                old(buffer)@.remembers,
            ),
            r,
        ),
{
    let ghost v0 = buffer@;
    let ghost e = encode_name(domain@, v0.labels, v0.cursor, v0.remembers);
    let ghost pre = e.0 + u16_bytes(code as int) + u16_bytes(1) + u32_bytes(ttl as int);
    let ghost rd = encode_pieces(rdata@, e.1, v0.cursor + pre.len() + 2, v0.remembers);
    let ghost total = encode_parts(domain@, code, ttl, rdata@, v0.labels, v0.cursor, v0.remembers);
    assert(total.0 =~= pre + (u16_bytes((rd.0.len() % 0x10000) as int) + rd.0));
    let r = buffer.write_qname(domain.as_str());
    if r.is_err() {
        proof {
            lemma_fail_extends(v0, buffer@, e, total.0.subrange(e.0.len() as int, total.0.len() as int), r);
            assert(e.0 + total.0.subrange(e.0.len() as int, total.0.len() as int) =~= total.0);
        }
        return r;
    }
    let ghost v1 = buffer@;
    let ghost b1 = u16_bytes(code as int) + u16_bytes(1) + u32_bytes(ttl as int);
    let fixed = [
        (code / 256) as u8,
        (code % 256) as u8,
        0u8,
        1u8,
        (ttl / 0x1000000) as u8,
        ((ttl / 0x10000) % 256) as u8,
        ((ttl / 256) % 256) as u8,
        (ttl % 256) as u8,
    ];
    assert(fixed@ =~= b1);
    let r = buffer.write_all(&fixed);
    proof {
        lemma_bytes_as_encoding(v1, buffer@, b1, r);
        lemma_wrote_seq(v0, v1, buffer@, e, (b1, v1.labels), Ok(()), r);
        assert(e.0 + b1 =~= pre);
    }
    if r.is_err() {
        proof {
            lemma_fail_extends(v0, buffer@, (pre, e.1), total.0.subrange(pre.len() as int, total.0.len() as int), r);
            assert(pre + total.0.subrange(pre.len() as int, total.0.len() as int) =~= total.0);
        }
        return r;
    }
    let len_pos = buffer.pos();
    let ghost v2 = buffer@;
    let r = buffer.write_u16(0);
    proof {
        lemma_bytes_as_encoding(v2, buffer@, u16_bytes(0), r);
        lemma_wrote_seq(v0, v2, buffer@, (pre, e.1), (u16_bytes(0), v2.labels), Ok(()), r);
        assert(u16_bytes(0) =~= seq![0u8, 0u8]);
    }
    if r.is_err() {
        proof {
            lemma_fail_extends(v0, buffer@, (pre + seq![0u8, 0u8], e.1), rd.0, r);
        }
        return r;
    }
    let ghost v3 = buffer@;
    let r = write_pieces(buffer, rdata);
    proof {
        lemma_wrote_seq(v0, v3, buffer@, (pre + seq![0u8, 0u8], e.1), rd, Ok(()), r);
    }
    if r.is_err() {
        proof {
            lemma_fail_extends(v0, buffer@, (pre + seq![0u8, 0u8] + rd.0, rd.1), seq![], r);
            assert(pre + seq![0u8, 0u8] + rd.0 + seq![] =~= pre + seq![0u8, 0u8] + rd.0);
        }
        return r;
    }
    let end_pos = buffer.pos();
    let size = end_pos - (len_pos + 2);
    let ghost v4 = buffer@;
    let _ = buffer.set_u16(len_pos, (size % 0x10000) as u16);
    proof {
        lemma_patch(v0.data, v0.cursor, pre, rd.0, (size % 0x10000) as int);
    }
    Ok(())
}

/// A resource record, the unit of answers, authorities and additional data.
/// Records that differ only in their TTL compare equal.
#[derive(Debug, Clone, PartialEq, Eq)]
pub enum DnsRecord {
    UNKNOWN { domain: String, qtype: u16, data_len: u16, ttl: TransientTtl },
    A { domain: String, addr: [u8; 4], ttl: TransientTtl },
    NS { domain: String, host: String, ttl: TransientTtl },
    CNAME { domain: String, host: String, ttl: TransientTtl },
    SOA {
        domain: String,
        m_name: String,
        r_name: String,
        serial: u32,
        refresh: u32,
        retry: u32,
        expire: u32,
        minimum: u32,
        ttl: TransientTtl,
    },
    MX { domain: String, priority: u16, host: String, ttl: TransientTtl },
    TXT { domain: String, data: String, ttl: TransientTtl },
    AAAA { domain: String, addr: [u16; 8], ttl: TransientTtl },
    SRV {
        domain: String,
        priority: u16,
        weight: u16,
        port: u16,
        host: String,
        ttl: TransientTtl,
    },
    OPT { packet_len: u16, flags: u32, data: String },
}

/// The mathematical value of a record: names and texts as character sequences.
pub enum RecordView {
    Unknown { domain: Seq<char>, qtype: u16, data_len: u16, ttl: u32 },
    A { domain: Seq<char>, addr: Seq<u8>, ttl: u32 },
    NS { domain: Seq<char>, host: Seq<char>, ttl: u32 },
    CNAME { domain: Seq<char>, host: Seq<char>, ttl: u32 },
    SOA {
        domain: Seq<char>,
        m_name: Seq<char>,
        r_name: Seq<char>,
        serial: u32,
        refresh: u32,
        retry: u32,
        expire: u32,
        minimum: u32,
        ttl: u32,
    },
    MX { domain: Seq<char>, priority: u16, host: Seq<char>, ttl: u32 },
    TXT { domain: Seq<char>, data: Seq<char>, ttl: u32 },
    AAAA { domain: Seq<char>, addr: Seq<u16>, ttl: u32 },
    SRV {
        domain: Seq<char>,
        priority: u16,
        weight: u16,
        port: u16,
        host: Seq<char>,
        ttl: u32,
    },
    Opt { packet_len: u16, flags: u32, data: Seq<char> },
}

impl View for DnsRecord {
    type V = RecordView;

    open spec fn view(&self) -> RecordView {
        match self {
            DnsRecord::UNKNOWN { domain, qtype, data_len, ttl } => RecordView::Unknown {
                domain: domain@,
                qtype: *qtype,
                data_len: *data_len,
                ttl: ttl.0,
            },
            DnsRecord::A { domain, addr, ttl } => RecordView::A {
                domain: domain@,
                addr: addr@,
                ttl: ttl.0,
            },
            DnsRecord::NS { domain, host, ttl } => RecordView::NS {
                domain: domain@,
                host: host@,
                ttl: ttl.0,
            },
            DnsRecord::CNAME { domain, host, ttl } => RecordView::CNAME {
                domain: domain@,
                host: host@,
                ttl: ttl.0,
            },
            DnsRecord::SOA {
                domain,
                m_name,
                r_name,
                serial,
                refresh,
                retry,
                expire,
                minimum,
                ttl,
            } => RecordView::SOA {
                domain: domain@,
                m_name: m_name@,
                r_name: r_name@,
                serial: *serial,
                refresh: *refresh,
                retry: *retry,
                expire: *expire,
                minimum: *minimum,
                ttl: ttl.0,
            },
            DnsRecord::MX { domain, priority, host, ttl } => RecordView::MX {
                domain: domain@,
                priority: *priority,
                host: host@,
                ttl: ttl.0,
            },
            DnsRecord::TXT { domain, data, ttl } => RecordView::TXT {
                domain: domain@,
                data: data@,
                ttl: ttl.0,
            },
            DnsRecord::AAAA { domain, addr, ttl } => RecordView::AAAA {
                domain: domain@,
                addr: addr@,
                ttl: ttl.0,
            },
            DnsRecord::SRV { domain, priority, weight, port, host, ttl } => RecordView::SRV {
                domain: domain@,
                priority: *priority,
                weight: *weight,
                port: *port,
                host: host@,
                ttl: ttl.0,
            },
            DnsRecord::OPT { packet_len, flags, data } => RecordView::Opt {
                packet_len: *packet_len,
                flags: *flags,
                data: data@,
            },
        }
    }
}

impl RecordView {
    /// The type of the record.
    pub open spec fn query_type(self) -> QueryType {
        match self {
            RecordView::A { .. } => QueryType::A,
            RecordView::AAAA { .. } => QueryType::AAAA,
            RecordView::NS { .. } => QueryType::NS,
            RecordView::CNAME { .. } => QueryType::CNAME,
            RecordView::SRV { .. } => QueryType::SRV,
            RecordView::MX { .. } => QueryType::MX,
            RecordView::SOA { .. } => QueryType::SOA,
            RecordView::TXT { .. } => QueryType::TXT,
            RecordView::Opt { .. } => QueryType::OPT,
            RecordView::Unknown { qtype, .. } => QueryType::UNKNOWN(qtype),
        }
    }

    /// The owner name, absent for the OPT pseudo-record.
    pub open spec fn domain(self) -> Option<Seq<char>> {
        match self {
            RecordView::A { domain, .. } => Some(domain),
            RecordView::AAAA { domain, .. } => Some(domain),
            RecordView::NS { domain, .. } => Some(domain),
            RecordView::CNAME { domain, .. } => Some(domain),
            RecordView::SRV { domain, .. } => Some(domain),
            RecordView::MX { domain, .. } => Some(domain),
            RecordView::SOA { domain, .. } => Some(domain),
            RecordView::TXT { domain, .. } => Some(domain),
            RecordView::Unknown { domain, .. } => Some(domain),
            RecordView::Opt { .. } => None,
        }
    }

    /// The TTL, 0 for the OPT pseudo-record.
    pub open spec fn ttl(self) -> u32 {
        match self {
            RecordView::A { ttl, .. } => ttl,
            RecordView::AAAA { ttl, .. } => ttl,
            RecordView::NS { ttl, .. } => ttl,
            RecordView::CNAME { ttl, .. } => ttl,
            RecordView::SRV { ttl, .. } => ttl,
            RecordView::MX { ttl, .. } => ttl,
            RecordView::SOA { ttl, .. } => ttl,
            RecordView::TXT { ttl, .. } => ttl,
            RecordView::Unknown { ttl, .. } => ttl,
            RecordView::Opt { .. } => 0,
        }
    }
}

impl DnsRecord {
    /// The data fields of the record, in wire order.
    pub open spec fn rdata(&self) -> Seq<Piece> {
        match self {
            DnsRecord::A { addr, .. } => seq![
                Piece::Byte(addr[0]),
                Piece::Byte(addr[1]),
                Piece::Byte(addr[2]),
                Piece::Byte(addr[3]),
            ],
            DnsRecord::AAAA { addr, .. } => seq![
                Piece::Word(addr[0]),
                Piece::Word(addr[1]),
                Piece::Word(addr[2]),
                Piece::Word(addr[3]),
                Piece::Word(addr[4]),
                Piece::Word(addr[5]),
                Piece::Word(addr[6]),
                Piece::Word(addr[7]),
            ],
            DnsRecord::NS { host, .. } => seq![Piece::Name(*host)],
            DnsRecord::CNAME { host, .. } => seq![Piece::Name(*host)],
            DnsRecord::MX { priority, host, .. } => seq![Piece::Word(*priority), Piece::Name(*host)],
            DnsRecord::SRV { priority, weight, port, host, .. } => seq![
                Piece::Word(*priority),
                Piece::Word(*weight),
                Piece::Word(*port),
                Piece::Name(*host),
            ],
            DnsRecord::SOA { m_name, r_name, serial, refresh, retry, expire, minimum, .. } => seq![
                Piece::Name(*m_name),
                Piece::Name(*r_name),
                Piece::Long(*serial),
                Piece::Long(*refresh),
                Piece::Long(*retry),
                Piece::Long(*expire),
                Piece::Long(*minimum),
            ],
            DnsRecord::TXT { data, .. } => seq![Piece::Text(*data)],
            DnsRecord::OPT { .. } => seq![],
            DnsRecord::UNKNOWN { .. } => seq![],
        }
    }

    /// Whether the record is written at all (OPT and unknown types are skipped).
    pub open spec fn is_emitted(&self) -> bool {
        !(self is OPT) && !(self is UNKNOWN)
    }

    /// Whether every name of an emitted record can be encoded.
    pub open spec fn names_valid(&self) -> bool {
        self.is_emitted() ==> valid_name(self@.domain()->Some_0) && pieces_valid(self.rdata())
    }

    /// The encoding of the record written at `q` with suffix map `m`.
    #[verifier::opaque]
    pub open spec fn encode(&self, m: Map<Seq<char>, usize>, q: int, remember: bool) -> (
        Seq<u8>,
        Map<Seq<char>, usize>,
    ) {
        if self.is_emitted() {
            encode_parts(
                self@.domain()->Some_0,
                self@.query_type().code(),
                self@.ttl(),
                self.rdata(),
                m,
                q,
                remember,
            )
        } else {
            (seq![], m)
        }
    }

    /// The type of the record.
    pub fn get_querytype(&self) -> (r: QueryType)
        ensures
            r == self@.query_type(),
    {
        match *self {
            DnsRecord::A { .. } => QueryType::A,
            DnsRecord::AAAA { .. } => QueryType::AAAA,
            DnsRecord::NS { .. } => QueryType::NS,
            DnsRecord::CNAME { .. } => QueryType::CNAME,
            DnsRecord::SRV { .. } => QueryType::SRV,
            DnsRecord::MX { .. } => QueryType::MX,
            DnsRecord::SOA { .. } => QueryType::SOA,
            DnsRecord::TXT { .. } => QueryType::TXT,
            DnsRecord::OPT { .. } => QueryType::OPT,
            DnsRecord::UNKNOWN { qtype, .. } => QueryType::UNKNOWN(qtype),
        }
    }

    /// The owner name, absent for the OPT pseudo-record.
    pub fn get_domain(&self) -> (r: Option<String>)
        ensures
            self@.domain() is Some ==> r is Some && r->Some_0@ == self@.domain()->Some_0,
            self@.domain() is None ==> r is None,
    {
        match self {
            DnsRecord::A { domain, .. } => Some(domain.clone()),
            DnsRecord::AAAA { domain, .. } => Some(domain.clone()),
            DnsRecord::NS { domain, .. } => Some(domain.clone()),
            DnsRecord::CNAME { domain, .. } => Some(domain.clone()),
            DnsRecord::SRV { domain, .. } => Some(domain.clone()),
            DnsRecord::MX { domain, .. } => Some(domain.clone()),
            DnsRecord::UNKNOWN { domain, .. } => Some(domain.clone()),
            DnsRecord::SOA { domain, .. } => Some(domain.clone()),
            DnsRecord::TXT { domain, .. } => Some(domain.clone()),
            DnsRecord::OPT { .. } => None,
        }
    }

    /// The TTL in seconds, 0 for the OPT pseudo-record.
    pub fn get_ttl(&self) -> (r: u32)
        ensures
            r == self@.ttl(),
    {
        match self {
            DnsRecord::A { ttl, .. } => ttl.0,
            DnsRecord::AAAA { ttl, .. } => ttl.0,
            DnsRecord::NS { ttl, .. } => ttl.0,
            DnsRecord::CNAME { ttl, .. } => ttl.0,
            DnsRecord::SRV { ttl, .. } => ttl.0,
            DnsRecord::MX { ttl, .. } => ttl.0,
            DnsRecord::UNKNOWN { ttl, .. } => ttl.0,
            DnsRecord::SOA { ttl, .. } => ttl.0,
            DnsRecord::TXT { ttl, .. } => ttl.0,
            DnsRecord::OPT { .. } => 0,
        }
    }

    /// The data fields of the record, in wire order.
    fn rdata_pieces(&self) -> (r: Vec<Piece>)
        ensures
            r@ == self.rdata(),
    {
        let mut v: Vec<Piece> = Vec::new();
        match self {
            DnsRecord::A { addr, .. } => {
                v.push(Piece::Byte(addr[0]));
                v.push(Piece::Byte(addr[1]));
                v.push(Piece::Byte(addr[2]));
                v.push(Piece::Byte(addr[3]));
            },
            DnsRecord::AAAA { addr, .. } => {
                let mut i: usize = 0;
                while i < 8
                    invariant
                        i <= 8,
                        v@ == Seq::new(i as nat, |k: int| Piece::Word(addr[k])),
                    decreases 8 - i,
                {
                    v.push(Piece::Word(addr[i]));
                    i = i + 1;
                    assert(v@ =~= Seq::new(i as nat, |k: int| Piece::Word(addr[k])));
                }
            },
            DnsRecord::NS { host, .. } => {
                v.push(Piece::Name(host.clone()));
            },
            DnsRecord::CNAME { host, .. } => {
                v.push(Piece::Name(host.clone()));
            },
            DnsRecord::MX { priority, host, .. } => {
                v.push(Piece::Word(*priority));
                v.push(Piece::Name(host.clone()));
            },
            DnsRecord::SRV { priority, weight, port, host, .. } => {
                v.push(Piece::Word(*priority));
                v.push(Piece::Word(*weight));
                v.push(Piece::Word(*port));
                v.push(Piece::Name(host.clone()));
            },
            DnsRecord::SOA { m_name, r_name, serial, refresh, retry, expire, minimum, .. } => {
                v.push(Piece::Name(m_name.clone()));
                v.push(Piece::Name(r_name.clone()));
                v.push(Piece::Long(*serial));
                v.push(Piece::Long(*refresh));
                v.push(Piece::Long(*retry));
                v.push(Piece::Long(*expire));
                v.push(Piece::Long(*minimum));
            },
            DnsRecord::TXT { data, .. } => {
                v.push(Piece::Text(data.clone()));
            },
            DnsRecord::OPT { .. } => {},
            DnsRecord::UNKNOWN { .. } => {},
        }
        assert(v@ =~= self.rdata());
        v
    }

    /// Writes the record at the cursor and returns the number of octets
    /// written; OPT and unknown records are skipped.
    pub fn write<T: PacketBuffer>(&self, buffer: &mut T) -> (r: Result<usize, ProtocolError>)
        requires
            old(buffer)@.wf(),
        ensures
            final(buffer)@.wf(),
            old(buffer)@.same_kind(final(buffer)@),
            !self.names_valid() ==> r == Err::<usize, ProtocolError>(
                ProtocolError::Buffer(BufferError::InvalidLabel),
            ) && final(buffer)@ == old(buffer)@,
            self.names_valid() ==> old(buffer)@.wrote_encoding(
                final(buffer)@,
                self.encode(old(buffer)@.labels, old(buffer)@.cursor, old(buffer)@.remembers),
                buffer_outcome(r),
            ),
            r is Ok ==> r->Ok_0 == self.encode(
                old(buffer)@.labels,
                old(buffer)@.cursor,
                old(buffer)@.remembers,
            ).0.len(),
    {
        let ghost v0 = buffer@;
        proof {
            reveal(DnsRecord::encode);
        }
        let start = buffer.pos();
        let domain = match self.get_domain() {
            Some(d) => d,
            None => {
                assert(v0.data.subrange(0, v0.cursor) + seq![] + v0.data.subrange(v0.cursor, v0.data.len() as int) =~= v0.data);
                return Ok(0);
            },
        };
        if let DnsRecord::UNKNOWN { .. } = self {
            assert(v0.data.subrange(0, v0.cursor) + seq![] + v0.data.subrange(v0.cursor, v0.data.len() as int) =~= v0.data);
            return Ok(0);
        }
        let rd = self.rdata_pieces();
        if !name_is_valid(domain.as_str()) || !pieces_ok(&rd) {
            return Err(ProtocolError::Buffer(BufferError::InvalidLabel));
        }
        let code = self.get_querytype().to_num();
        match write_parts(buffer, &domain, code, self.get_ttl(), &rd) {
            Ok(()) => Ok(buffer.pos() - start),
            Err(e) => Err(ProtocolError::Buffer(e)),
        }
    }
}

/// Whether every field of `ps` can be written.
fn pieces_ok(ps: &Vec<Piece>) -> (r: bool)
    ensures
        r == pieces_valid(ps@),
{
    let mut i: usize = 0;
    while i < ps.len()
        invariant
            i <= ps@.len(),
            forall|k: int| 0 <= k < i ==> piece_valid(#[trigger] ps@[k]),
        decreases ps@.len() - i,
    {
        if let Piece::Name(s) = &ps[i] {
            if !name_is_valid(s.as_str()) {
                return false;
            }
        }
        i = i + 1;
    }
    true
}

/// An A record's data at `s`: four address octets.
pub open spec fn decode_a(d: Seq<u8>, domain: Seq<char>, ttl: u32, s: int) -> Result<(RecordView, int), BufferError> {
    if s + 4 > d.len() {
        Err(BufferError::EndOfBuffer)
    } else {
        Ok((RecordView::A { domain, addr: d.subrange(s, s + 4), ttl }, s + 4))
    }
}

/// An AAAA record's data at `s`: eight 16-bit address segments.
pub open spec fn decode_aaaa(d: Seq<u8>, domain: Seq<char>, ttl: u32, s: int) -> Result<(RecordView, int), BufferError> {
    if s + 16 > d.len() {
        Err(BufferError::EndOfBuffer)
    } else {
        Ok(
            (
                RecordView::AAAA {
                    domain,
                    addr: Seq::new(8, |i: int| be16(d, s + 2 * i) as u16),
                    ttl,
                },
                s + 16,
            ),
        )
    }
}

/// An NS record's data at `s`: the name server's name.
pub open spec fn decode_ns(d: Seq<u8>, domain: Seq<char>, ttl: u32, s: int) -> Result<(RecordView, int), BufferError> {
    match read_name(d, s) {
        Ok(h) => Ok((RecordView::NS { domain, host: h.0, ttl }, h.1)),
        Err(e) => Err(e),
    }
}

/// A CNAME record's data at `s`: the canonical name.
pub open spec fn decode_cname(d: Seq<u8>, domain: Seq<char>, ttl: u32, s: int) -> Result<(RecordView, int), BufferError> {
    match read_name(d, s) {
        Ok(h) => Ok((RecordView::CNAME { domain, host: h.0, ttl }, h.1)),
        Err(e) => Err(e),
    }
}

/// An SRV record's data at `s`: priority, weight, port, target name.
pub open spec fn decode_srv(d: Seq<u8>, domain: Seq<char>, ttl: u32, s: int) -> Result<(RecordView, int), BufferError> {
    if s + 6 > d.len() {
        Err(BufferError::EndOfBuffer)
    } else {
        match read_name(d, s + 6) {
            Ok(h) => Ok(
                (
                    RecordView::SRV {
                        domain,
                        priority: be16(d, s) as u16,
                        weight: be16(d, s + 2) as u16,
                        port: be16(d, s + 4) as u16,
                        host: h.0,
                        ttl,
                    },
                    h.1,
                ),
            ),
            Err(e) => Err(e),
        }
    }
}

/// An MX record's data at `s`: priority and exchange name.
pub open spec fn decode_mx(d: Seq<u8>, domain: Seq<char>, ttl: u32, s: int) -> Result<(RecordView, int), BufferError> {
    if s + 2 > d.len() {
        Err(BufferError::EndOfBuffer)
    } else {
        match read_name(d, s + 2) {
            Ok(h) => Ok((RecordView::MX { domain, priority: be16(d, s) as u16, host: h.0, ttl }, h.1)),
            Err(e) => Err(e),
        }
    }
}

/// An SOA record's data at `s`: two names and five 32-bit counters.
pub open spec fn decode_soa(d: Seq<u8>, domain: Seq<char>, ttl: u32, s: int) -> Result<(RecordView, int), BufferError> {
    match read_name(d, s) {
        Ok(mn) => match read_name(d, mn.1) {
            Ok(rn) => if rn.1 + 20 > d.len() {
                Err(BufferError::EndOfBuffer)
            } else {
                Ok(
                    (
                        RecordView::SOA {
                            domain,
                            m_name: mn.0,
                            r_name: rn.0,
                            serial: be32(d, rn.1) as u32,
                            refresh: be32(d, rn.1 + 4) as u32,
                            retry: be32(d, rn.1 + 8) as u32,
                            expire: be32(d, rn.1 + 12) as u32,
                            minimum: be32(d, rn.1 + 16) as u32,
                            ttl,
                        },
                        rn.1 + 20,
                    ),
                )
            },
            Err(e) => Err(e),
        },
        Err(e) => Err(e),
    }
}

/// A TXT record's data at `s`: `dl` octets of text.
pub open spec fn decode_txt(d: Seq<u8>, domain: Seq<char>, ttl: u32, dl: u16, s: int) -> Result<(RecordView, int), BufferError> {
    if s + dl > d.len() {
        Err(BufferError::EndOfBuffer)
    } else {
        Ok((RecordView::TXT { domain, data: decoded_text(d.subrange(s, s + dl)), ttl }, s + dl))
    }
}

/// An OPT pseudo-record's data at `s`: `dl` octets of options; the class
/// field is the UDP payload size and the TTL field the extended flags.
pub open spec fn decode_opt(d: Seq<u8>, class: u16, ttl: u32, dl: u16, s: int) -> Result<(RecordView, int), BufferError> {
    if s + dl > d.len() {
        Err(BufferError::EndOfBuffer)
    } else {
        Ok(
            (
                RecordView::Opt { packet_len: class, flags: ttl, data: decoded_text(d.subrange(s, s + dl)) },
                s + dl,
            ),
        )
    }
}

/// The data of a record of type code `t` starting at `s`: the record and
/// the position after its data. Unknown types skip RDLENGTH octets.
pub open spec fn decode_rdata(
    d: Seq<u8>,
    domain: Seq<char>,
    t: u16,
    class: u16,
    ttl: u32,
    dl: u16,
    s: int,
) -> Result<(RecordView, int), BufferError> {
    match QueryType::of_code(t) {
        QueryType::A => decode_a(d, domain, ttl, s),
        QueryType::AAAA => decode_aaaa(d, domain, ttl, s),
        QueryType::NS => decode_ns(d, domain, ttl, s),
        QueryType::CNAME => decode_cname(d, domain, ttl, s),
        QueryType::SRV => decode_srv(d, domain, ttl, s),
        QueryType::MX => decode_mx(d, domain, ttl, s),
        QueryType::SOA => decode_soa(d, domain, ttl, s),
        QueryType::TXT => decode_txt(d, domain, ttl, dl, s),
        QueryType::OPT => decode_opt(d, class, ttl, dl, s),
        QueryType::UNKNOWN(_) => if s + dl > d.len() {
            Err(BufferError::EndOfBuffer)
        } else {
            Ok((RecordView::Unknown { domain, qtype: t, data_len: dl, ttl }, s + dl))
        },
    }
}

/// The decoding of the record at `p` of `d`: owner name, type, class, TTL,
/// RDLENGTH, then the data by type; with the position after it.
pub open spec fn decode_record(d: Seq<u8>, p: int) -> Result<(RecordView, int), BufferError> {
    match read_name(d, p) {
        Err(e) => Err(e),
        Ok(nm) => {
            let q = nm.1;
            if q + 10 > d.len() {
                Err(BufferError::EndOfBuffer)
            } else {
                decode_rdata(
                    d,
                    nm.0,
                    be16(d, q) as u16,
                    be16(d, q + 2) as u16,
                    be32(d, q + 4) as u32,
                    be16(d, q + 8) as u16,
                    q + 10,
                )
            }
        },
    }
}

/// Whether `new` is `old` after reading, with outcome `r`, what `expected` describes.
pub open spec fn record_outcome(
    old: BufferView,
    new: BufferView,
    expected: Result<(RecordView, int), BufferError>,
    r: Result<DnsRecord, ProtocolError>,
) -> bool {
    &&& new.wf()
    &&& old.same_kind(new)
    &&& new.data == old.data
    &&& new.labels == old.labels
    &&& match expected {
        Ok(x) => r is Ok && r->Ok_0@ == x.0 && new.cursor == x.1,
        Err(e) => r == Err::<DnsRecord, ProtocolError>(ProtocolError::Buffer(e)),
    }
}

/// Reads a name at the cursor into a new string.
fn read_name_string<T: PacketBuffer>(buffer: &mut T) -> (r: Result<String, ProtocolError>)
    requires
        old(buffer)@.wf(),
    ensures
        final(buffer)@.wf(),
        old(buffer)@.same_kind(final(buffer)@),
        final(buffer)@.data == old(buffer)@.data,
        final(buffer)@.labels == old(buffer)@.labels,
        match read_name(old(buffer)@.data, old(buffer)@.cursor) {
            Ok(res) => r is Ok && r->Ok_0@ == res.0 && final(buffer)@.cursor == res.1,
            Err(e) => r == Err::<String, ProtocolError>(ProtocolError::Buffer(e)),
        },
{
    let mut s = String::new();
    match buffer.read_qname(&mut s) {
        Ok(()) => {
            proof {
                assert(s@ =~= Seq::<char>::empty() + s@);
            }
            Ok(s)
        },
        Err(e) => Err(ProtocolError::Buffer(e)),
    }
}

/// Reads `n` octets at the cursor as text and moves past them.
fn read_text<T: PacketBuffer>(buffer: &mut T, n: u16) -> (r: Result<String, ProtocolError>)
    requires
        old(buffer)@.wf(),
    ensures
        old(buffer)@.read_past(final(buffer)@, n as int),
        old(buffer)@.cursor + n <= old(buffer)@.data.len() ==> r is Ok && r->Ok_0@ == decoded_text(
            old(buffer)@.data.subrange(old(buffer)@.cursor, old(buffer)@.cursor + n),
        ),
        old(buffer)@.cursor + n > old(buffer)@.data.len() ==> r == Err::<String, ProtocolError>(
            ProtocolError::Buffer(BufferError::EndOfBuffer),
        ),
{
    let cur = buffer.pos();
    let text = match buffer.get_range(cur, n as usize) {
        Ok(b) => text_of_octets(b),
        Err(e) => return Err(ProtocolError::Buffer(e)),
    };
    let _ = buffer.step(n as usize);
    Ok(text)
}

impl DnsRecord {
    /// Reads a record at the cursor.
    pub fn read<T: PacketBuffer>(buffer: &mut T) -> (r: Result<DnsRecord, ProtocolError>)
        requires
            old(buffer)@.wf(),
        ensures
            record_outcome(
                old(buffer)@,
                final(buffer)@,
                decode_record(old(buffer)@.data, old(buffer)@.cursor),
                r,
            ),
    {
        let ghost d = buffer@.data;
        let domain = read_name_string(buffer)?;
        let ghost q = buffer@.cursor;
        let qtype_num = match buffer.read_u16() {
            Ok(v) => v,
            Err(e) => return Err(ProtocolError::Buffer(e)),
        };
        let class = match buffer.read_u16() {
            Ok(v) => v,
            Err(e) => return Err(ProtocolError::Buffer(e)),
        };
        let ttl = match buffer.read_u32() {
            Ok(v) => v,
            Err(e) => return Err(ProtocolError::Buffer(e)),
        };
        let data_len = match buffer.read_u16() {
            Ok(v) => v,
            Err(e) => return Err(ProtocolError::Buffer(e)),
        };
        Self::read_rdata(buffer, domain, qtype_num, class, ttl, data_len)
    }

    /// Reads the data of a record whose fixed fields were just read.
    fn read_rdata<T: PacketBuffer>(
        buffer: &mut T,
        domain: String,
        qtype_num: u16,
        class: u16,
        ttl: u32,
        data_len: u16,
    ) -> (r: Result<DnsRecord, ProtocolError>)
        requires
            old(buffer)@.wf(),
        ensures
            record_outcome(
                old(buffer)@,
                final(buffer)@,
                decode_rdata(old(buffer)@.data, domain@, qtype_num, class, ttl, data_len, old(buffer)@.cursor),
                r,
            ),
    {
        match QueryType::from_num(qtype_num) {
            QueryType::A => Self::read_a_record(buffer, domain, ttl),
            QueryType::AAAA => Self::read_aaaa_record(buffer, domain, ttl),
            QueryType::NS => Self::read_ns_record(buffer, domain, ttl),
            QueryType::CNAME => Self::read_cname_record(buffer, domain, ttl),
            QueryType::SRV => Self::read_srv_record(buffer, domain, ttl),
            QueryType::MX => Self::read_mx_record(buffer, domain, ttl),
            QueryType::SOA => Self::read_soa_record(buffer, domain, ttl),
            QueryType::TXT => Self::read_txt_record(buffer, domain, ttl, data_len),
            QueryType::OPT => Self::read_opt_record(buffer, class, ttl, data_len),
            QueryType::UNKNOWN(_) => {
                if let Err(e) = buffer.step(data_len as usize) {
                    return Err(ProtocolError::Buffer(e));
                }
                Ok(DnsRecord::UNKNOWN { domain, qtype: qtype_num, data_len, ttl: TransientTtl(ttl) })
            },
        }
    }

    fn read_a_record<T: PacketBuffer>(buffer: &mut T, domain: String, ttl: u32) -> (r: Result<
        DnsRecord,
        ProtocolError,
    >)
        requires
            old(buffer)@.wf(),
        ensures
            record_outcome(
                old(buffer)@,
                final(buffer)@,
                decode_a(old(buffer)@.data, domain@, ttl, old(buffer)@.cursor),
                r,
            ),
    {
        let cur = buffer.pos();
        let addr = match buffer.get_range(cur, 4) {
            Ok(b) => [b[0], b[1], b[2], b[3]],
            Err(e) => return Err(ProtocolError::Buffer(e)),
        };
        let _ = buffer.step(4);
        assert(addr@ =~= buffer@.data.subrange(cur as int, cur + 4));
        Ok(DnsRecord::A { domain, addr, ttl: TransientTtl(ttl) })
    }

    fn read_aaaa_record<T: PacketBuffer>(buffer: &mut T, domain: String, ttl: u32) -> (r: Result<
        DnsRecord,
        ProtocolError,
    >)
        requires
            old(buffer)@.wf(),
        ensures
            record_outcome(
                old(buffer)@,
                final(buffer)@,
                decode_aaaa(old(buffer)@.data, domain@, ttl, old(buffer)@.cursor),
                r,
            ),
    {
        let cur = buffer.pos();
        let b = match buffer.get_range(cur, 16) {
            Ok(b) => b,
            Err(e) => return Err(ProtocolError::Buffer(e)),
        };
        let mut addr = [0u16; 8];
        let mut i: usize = 0;
        while i < 8
            invariant
                i <= 8,
                b@.len() == 16,
                b@ == buffer@.data.subrange(cur as int, cur + 16),
                cur + 16 <= buffer@.data.len(),
                forall|k: int| 0 <= k < i ==> addr[k] == be16(buffer@.data, cur + 2 * k),
            decreases 8 - i,
        {
            assert(b@[2 * i as int] == buffer@.data[cur + 2 * i]);
            assert(b@[2 * i + 1] == buffer@.data[cur + 2 * i + 1]);
            addr[i] = (b[2 * i] as u16) * 256 + (b[2 * i + 1] as u16);
            i = i + 1;
        }
        let ghost d = buffer@.data;
        let _ = buffer.step(16);
        assert(addr@ =~= Seq::new(8, |k: int| be16(d, cur + 2 * k) as u16));
        Ok(DnsRecord::AAAA { domain, addr, ttl: TransientTtl(ttl) })
    }

    fn read_ns_record<T: PacketBuffer>(buffer: &mut T, domain: String, ttl: u32) -> (r: Result<
        DnsRecord,
        ProtocolError,
    >)
        requires
            old(buffer)@.wf(),
        ensures
            record_outcome(
                old(buffer)@,
                final(buffer)@,
                decode_ns(old(buffer)@.data, domain@, ttl, old(buffer)@.cursor),
                r,
            ),
    {
        let ns = read_name_string(buffer)?;
        Ok(DnsRecord::NS { domain, host: ns, ttl: TransientTtl(ttl) })
    }

    fn read_cname_record<T: PacketBuffer>(buffer: &mut T, domain: String, ttl: u32) -> (r: Result<
        DnsRecord,
        ProtocolError,
    >)
        requires
            old(buffer)@.wf(),
        ensures
            record_outcome(
                old(buffer)@,
                final(buffer)@,
                decode_cname(old(buffer)@.data, domain@, ttl, old(buffer)@.cursor),
                r,
            ),
    {
        let cname = read_name_string(buffer)?;
        Ok(DnsRecord::CNAME { domain, host: cname, ttl: TransientTtl(ttl) })
    }

    fn read_srv_record<T: PacketBuffer>(buffer: &mut T, domain: String, ttl: u32) -> (r: Result<
        DnsRecord,
        ProtocolError,
    >)
        requires
            old(buffer)@.wf(),
        ensures
            record_outcome(
                old(buffer)@,
                final(buffer)@,
                decode_srv(old(buffer)@.data, domain@, ttl, old(buffer)@.cursor),
                r,
            ),
    {
        let priority = match buffer.read_u16() {
            Ok(v) => v,
            Err(e) => return Err(ProtocolError::Buffer(e)),
        };
        let weight = match buffer.read_u16() {
            Ok(v) => v,
            Err(e) => return Err(ProtocolError::Buffer(e)),
        };
        let port = match buffer.read_u16() {
            Ok(v) => v,
            Err(e) => return Err(ProtocolError::Buffer(e)),
        };
        let srv = read_name_string(buffer)?;
        Ok(DnsRecord::SRV { domain, priority, weight, port, host: srv, ttl: TransientTtl(ttl) })
    }

    fn read_mx_record<T: PacketBuffer>(buffer: &mut T, domain: String, ttl: u32) -> (r: Result<
        DnsRecord,
        ProtocolError,
    >)
        requires
            old(buffer)@.wf(),
        ensures
            record_outcome(
                old(buffer)@,
                final(buffer)@,
                decode_mx(old(buffer)@.data, domain@, ttl, old(buffer)@.cursor),
                r,
            ),
    {
        let priority = match buffer.read_u16() {
            Ok(v) => v,
            Err(e) => return Err(ProtocolError::Buffer(e)),
        };
        let mx = read_name_string(buffer)?;
        Ok(DnsRecord::MX { domain, priority, host: mx, ttl: TransientTtl(ttl) })
    }

    fn read_soa_record<T: PacketBuffer>(buffer: &mut T, domain: String, ttl: u32) -> (r: Result<
        DnsRecord,
        ProtocolError,
    >)
        requires
            old(buffer)@.wf(),
        ensures
            record_outcome(
                old(buffer)@,
                final(buffer)@,
                decode_soa(old(buffer)@.data, domain@, ttl, old(buffer)@.cursor),
                r,
            ),
    {
        let m_name = read_name_string(buffer)?;
        let r_name = read_name_string(buffer)?;
        let serial = match buffer.read_u32() {
            Ok(v) => v,
            Err(e) => return Err(ProtocolError::Buffer(e)),
        };
        let refresh = match buffer.read_u32() {
            Ok(v) => v,
            Err(e) => return Err(ProtocolError::Buffer(e)),
        };
        let retry = match buffer.read_u32() {
            Ok(v) => v,
            Err(e) => return Err(ProtocolError::Buffer(e)),
        };
        let expire = match buffer.read_u32() {
            Ok(v) => v,
            Err(e) => return Err(ProtocolError::Buffer(e)),
        };
        let minimum = match buffer.read_u32() {
            Ok(v) => v,
            Err(e) => return Err(ProtocolError::Buffer(e)),
        };
        Ok(
            DnsRecord::SOA {
                domain,
                m_name,
                r_name,
                serial,
                refresh,
                retry,
                expire,
                minimum,
                ttl: TransientTtl(ttl),
            },
        )
    }

    fn read_txt_record<T: PacketBuffer>(
        buffer: &mut T,
        domain: String,
        ttl: u32,
        data_len: u16,
    ) -> (r: Result<DnsRecord, ProtocolError>)
        requires
            old(buffer)@.wf(),
        ensures
            record_outcome(
                old(buffer)@,
                final(buffer)@,
                decode_txt(old(buffer)@.data, domain@, ttl, data_len, old(buffer)@.cursor),
                r,
            ),
    {
        let txt = read_text(buffer, data_len)?;
        Ok(DnsRecord::TXT { domain, data: txt, ttl: TransientTtl(ttl) })
    }

    fn read_opt_record<T: PacketBuffer>(
        buffer: &mut T,
        class: u16,
        ttl: u32,
        data_len: u16,
    ) -> (r: Result<DnsRecord, ProtocolError>)
        requires
            old(buffer)@.wf(),
        ensures
            record_outcome(
                old(buffer)@,
                final(buffer)@,
                decode_opt(old(buffer)@.data, class, ttl, data_len, old(buffer)@.cursor),
                r,
            ),
    {
        let data = read_text(buffer, data_len)?;
        Ok(DnsRecord::OPT { packet_len: class, flags: ttl, data })
    }
}

/// A question: a name and a type (class IN on the wire).
#[derive(Debug, Clone, PartialEq, Eq)]
pub struct DnsQuestion {
    pub name: String,
    pub qtype: QueryType,
}

/// The wire encoding of a question, written at `q` with suffix map `m`.
pub open spec fn encode_question(
    name: Seq<char>,
    qtype: QueryType,
    m: Map<Seq<char>, usize>,
    q: int,
    remember: bool,
) -> (Seq<u8>, Map<Seq<char>, usize>) {
    let e = encode_name(name, m, q, remember);
    (e.0 + u16_bytes(qtype.code() as int) + u16_bytes(1), e.1)
}

impl DnsQuestion {
    /// A question for `name` and `qtype`.
    pub fn new(name: String, qtype: QueryType) -> (r: Self)
        ensures
            r.name == name,
            r.qtype == qtype,
    {
        Self { name, qtype }
    }

    /// The length of the uncompressed name on the wire: one length octet per
    /// label plus the terminating zero, i.e. two more than the name's octets.
    pub fn binary_len(&self) -> (r: usize)
        requires
            encode_utf8(self.name@).len() + 2 <= usize::MAX,
        ensures
            r == encode_utf8(self.name@).len() + 2,
    {
        self.name.as_str().len() + 2
    }

    /// Writes the question at the cursor: name, type, class IN.
    pub fn write<T: PacketBuffer>(&self, buffer: &mut T) -> (r: Result<(), ProtocolError>)
        requires
            old(buffer)@.wf(),
        ensures
            final(buffer)@.wf(),
            old(buffer)@.same_kind(final(buffer)@),
            !valid_name(self.name@) ==> r == Err::<(), ProtocolError>(
                ProtocolError::Buffer(BufferError::InvalidLabel),
            ) && final(buffer)@ == old(buffer)@,
            valid_name(self.name@) ==> old(buffer)@.wrote_encoding(
                final(buffer)@,
                encode_question(
                    self.name@,
                    self.qtype,
                    old(buffer)@.labels,
                    old(buffer)@.cursor,
                    old(buffer)@.remembers,
                ),
                buffer_outcome(r),
            ),
    {
        let ghost v0 = buffer@;
        let ghost e1 = encode_name(self.name@, v0.labels, v0.cursor, v0.remembers);
        let ghost b2 = u16_bytes(self.qtype.code() as int);
        let ghost b3 = u16_bytes(1);
        match buffer.write_qname(self.name.as_str()) {
            Ok(()) => {},
            Err(e) => {
                proof {
                    if valid_name(self.name@) {
                        lemma_fail_extends(v0, buffer@, e1, b2 + b3, Err(e));
                        assert(e1.0 + b2 + b3 =~= e1.0 + (b2 + b3));
                    }
                }
                return Err(ProtocolError::Buffer(e));
            },
        }
        let ghost v1 = buffer@;
        let r2 = buffer.write_u16(self.qtype.to_num());
        proof {
            lemma_bytes_as_encoding(v1, buffer@, b2, r2);
            lemma_wrote_seq(v0, v1, buffer@, e1, (b2, v1.labels), Ok(()), r2);
        }
        if let Err(e) = r2 {
            proof {
                lemma_fail_extends(v0, buffer@, (e1.0 + b2, e1.1), b3, r2);
            }
            return Err(ProtocolError::Buffer(e));
        }
        let ghost v2 = buffer@;
        let r3 = buffer.write_u16(1);
        proof {
            lemma_bytes_as_encoding(v2, buffer@, b3, r3);
            lemma_wrote_seq(v0, v2, buffer@, (e1.0 + b2, e1.1), (b3, v2.labels), Ok(()), r3);
        }
        match r3 {
            Ok(()) => Ok(()),
            Err(e) => Err(ProtocolError::Buffer(e)),
        }
    }

    /// Reads a question at the cursor, appending the name to `self.name`.
    pub fn read<T: PacketBuffer>(&mut self, buffer: &mut T) -> (r: Result<(), ProtocolError>)
        requires
            old(buffer)@.wf(),
        ensures
            final(buffer)@.wf(),
            old(buffer)@.same_kind(final(buffer)@),
            final(buffer)@.data == old(buffer)@.data,
            final(buffer)@.labels == old(buffer)@.labels,
            match read_name(old(buffer)@.data, old(buffer)@.cursor) {
                Ok(res) => if res.1 + 4 <= old(buffer)@.data.len() {
                    &&& r is Ok
                    &&& final(self).name@ == old(self).name@ + res.0
                    &&& final(self).qtype == QueryType::of_code(
                        be16(old(buffer)@.data, res.1) as u16,
                    )
                    &&& final(buffer)@.cursor == res.1 + 4
                } else {
                    r == Err::<(), ProtocolError>(ProtocolError::Buffer(BufferError::EndOfBuffer))
                },
                Err(e) => r == Err::<(), ProtocolError>(ProtocolError::Buffer(e)),
            },
    {
        if let Err(e) = buffer.read_qname(&mut self.name) {
            return Err(ProtocolError::Buffer(e));
        }
        let code = match buffer.read_u16() {
            Ok(v) => v,
            Err(e) => return Err(ProtocolError::Buffer(e)),
        };
        self.qtype = QueryType::from_num(code);
        match buffer.read_u16() {
            Ok(_) => Ok(()),
            Err(e) => Err(ProtocolError::Buffer(e)),
        }
    }
}


/// A whole message: header, questions, answers, authorities and additional records.
#[derive(Debug, Clone)]
pub struct DnsPacket {
    pub header: DnsHeader,
    pub questions: Vec<DnsQuestion>,
    pub answers: Vec<DnsRecord>,
    pub authorities: Vec<DnsRecord>,
    pub resources: Vec<DnsRecord>,
}

/// The mathematical value of a message.
pub struct PacketView {
    pub header: DnsHeader,
    pub questions: Seq<(Seq<char>, QueryType)>,
    pub answers: Seq<RecordView>,
    pub authorities: Seq<RecordView>,
    pub resources: Seq<RecordView>,
}

/// The values of a list of records.
pub open spec fn record_views(rs: Seq<DnsRecord>) -> Seq<RecordView> {
    rs.map_values(|r: DnsRecord| r@)
}

/// The values of a list of questions.
pub open spec fn question_views(qs: Seq<DnsQuestion>) -> Seq<(Seq<char>, QueryType)> {
    qs.map_values(|q: DnsQuestion| (q.name@, q.qtype))
}

impl View for DnsPacket {
    type V = PacketView;

    open spec fn view(&self) -> PacketView {
        PacketView {
            header: self.header,
            questions: question_views(self.questions@),
            answers: record_views(self.answers@),
            authorities: record_views(self.authorities@),
            resources: record_views(self.resources@),
        }
    }
}

/// Decoding of `n` consecutive questions at `p`.
pub open spec fn decode_questions(d: Seq<u8>, p: int, n: nat) -> Result<
    (Seq<(Seq<char>, QueryType)>, int),
    BufferError,
>
    decreases n,
{
    if n == 0 {
        Ok((seq![], p))
    } else {
        match read_name(d, p) {
            Ok(nm) => if nm.1 + 4 > d.len() {
                Err(BufferError::EndOfBuffer)
            } else {
                match decode_questions(d, nm.1 + 4, (n - 1) as nat) {
                    Ok(rest) => Ok(
                        (seq![(nm.0, QueryType::of_code(be16(d, nm.1) as u16))] + rest.0, rest.1),
                    ),
                    Err(e) => Err(e),
                }
            },
            Err(e) => Err(e),
        }
    }
}

/// Decoding of `n` consecutive records at `p`.
pub open spec fn decode_records(d: Seq<u8>, p: int, n: nat) -> Result<(Seq<RecordView>, int), BufferError>
    decreases n,
{
    if n == 0 {
        Ok((seq![], p))
    } else {
        match decode_record(d, p) {
            Ok(r) => match decode_records(d, r.1, (n - 1) as nat) {
                Ok(rest) => Ok((seq![r.0] + rest.0, rest.1)),
                Err(e) => Err(e),
            },
            Err(e) => Err(e),
        }
    }
}

/// Decoding of the message at `p`: the header, then as many questions,
/// answers, authorities and additional records as its counts give.
pub open spec fn decode_packet(d: Seq<u8>, p: int) -> Result<(PacketView, int), BufferError> {
    if p + 12 > d.len() {
        Err(BufferError::EndOfBuffer)
    } else {
        let h = DnsHeader::parse(d, p);
        match decode_questions(d, p + 12, h.questions as nat) {
            Err(e) => Err(e),
            Ok(qs) => match decode_records(d, qs.1, h.answers as nat) {
                Err(e) => Err(e),
                Ok(ans) => match decode_records(d, ans.1, h.authoritative_entries as nat) {
                    Err(e) => Err(e),
                    Ok(auth) => match decode_records(d, auth.1, h.resource_entries as nat) {
                        Err(e) => Err(e),
                        Ok(res) => Ok(
                            (
                                PacketView {
                                    header: h,
                                    questions: qs.0,
                                    answers: ans.0,
                                    authorities: auth.0,
                                    resources: res.0,
                                },
                                res.1,
                            ),
                        ),
                    },
                },
            },
        }
    }
}

/// Encoding of questions written one after another from `q`.
pub open spec fn encode_questions(qs: Seq<DnsQuestion>, m: Map<Seq<char>, usize>, q: int, remember: bool) -> (
    Seq<u8>,
    Map<Seq<char>, usize>,
)
    decreases qs.len(),
{
    if qs.len() == 0 {
        (seq![], m)
    } else {
        let a = encode_questions(qs.drop_last(), m, q, remember);
        let b = encode_question(qs.last().name@, qs.last().qtype, a.1, q + a.0.len(), remember);
        (a.0 + b.0, b.1)
    }
}

/// Encoding of records written one after another from `q`.
pub open spec fn encode_records(rs: Seq<DnsRecord>, m: Map<Seq<char>, usize>, q: int, remember: bool) -> (
    Seq<u8>,
    Map<Seq<char>, usize>,
)
    decreases rs.len(),
{
    if rs.len() == 0 {
        (seq![], m)
    } else {
        let a = encode_records(rs.drop_last(), m, q, remember);
        let b = rs.last().encode(a.1, q + a.0.len(), remember);
        (a.0 + b.0, b.1)
    }
}

/// Whether every question name can be encoded.
pub open spec fn questions_valid(qs: Seq<DnsQuestion>) -> bool {
    forall|i: int| 0 <= i < qs.len() ==> valid_name(#[trigger] qs[i].name@)
}

/// Whether every record's names can be encoded.
pub open spec fn records_valid(rs: Seq<DnsRecord>) -> bool {
    forall|i: int| 0 <= i < rs.len() ==> (#[trigger] rs[i]).names_valid()
}

/// How many records from index `i` on fit in `max` octets when the
/// message written so far ends at `q` with suffix map `m`: records are
/// counted while the running size stays within `max`.
pub open spec fn fit_from(rs: Seq<DnsRecord>, i: int, m: Map<Seq<char>, usize>, q: int, max: int) -> nat
    decreases rs.len() - i,
{
    if i < 0 || i >= rs.len() {
        0
    } else {
        let e = rs[i].encode(m, q, true);
        if q + e.0.len() > max {
            0
        } else {
            1 + fit_from(rs, i + 1, e.1, q + e.0.len(), max)
        }
    }
}

/// A prefix of a list of records encodes to no more octets than the list.
proof fn lemma_records_prefix_len(
    rs: Seq<DnsRecord>,
    j: int,
    m: Map<Seq<char>, usize>,
    q: int,
    remember: bool,
)
    requires
        0 <= j <= rs.len(),
    ensures
        encode_records(rs.subrange(0, j), m, q, remember).0.len() <= encode_records(
            rs,
            m,
            q,
            remember,
        ).0.len(),
    decreases rs.len(),
{
    if j == rs.len() {
        assert(rs.subrange(0, j) =~= rs);
    } else {
        assert(rs.subrange(0, j) =~= rs.drop_last().subrange(0, j));
        lemma_records_prefix_len(rs.drop_last(), j, m, q, remember);
    }
}

/// A prefix of a list of questions encodes to no more octets than the list.
proof fn lemma_questions_prefix_len(
    qs: Seq<DnsQuestion>,
    j: int,
    m: Map<Seq<char>, usize>,
    q: int,
    remember: bool,
)
    requires
        0 <= j <= qs.len(),
    ensures
        encode_questions(qs.subrange(0, j), m, q, remember).0.len() <= encode_questions(
            qs,
            m,
            q,
            remember,
        ).0.len(),
    decreases qs.len(),
{
    if j == qs.len() {
        assert(qs.subrange(0, j) =~= qs);
    } else {
        assert(qs.subrange(0, j) =~= qs.drop_last().subrange(0, j));
        lemma_questions_prefix_len(qs.drop_last(), j, m, q, remember);
    }
}

/// How many of `rs` are written on the wire (OPT and unknown records are not).
pub open spec fn emitted_count(rs: Seq<DnsRecord>) -> nat
    decreases rs.len(),
{
    if rs.len() == 0 {
        0
    } else {
        emitted_count(rs.drop_last()) + if rs.last().is_emitted() {
            1nat
        } else {
            0nat
        }
    }
}

impl DnsRecord {
    /// Whether the record is written on the wire.
    pub fn emitted(&self) -> (r: bool)
        ensures
            r == self.is_emitted(),
    {
        match self {
            DnsRecord::OPT { .. } => false,
            DnsRecord::UNKNOWN { .. } => false,
            _ => true,
        }
    }
}

/// How many of the first `upto` records of `rs` are written on the wire.
fn count_emitted(rs: &Vec<DnsRecord>, upto: usize) -> (r: usize)
    requires
        upto <= rs@.len(),
    ensures
        r == emitted_count(rs@.subrange(0, upto as int)),
        r <= upto,
{
    let mut c: usize = 0;
    let mut i: usize = 0;
    assert(rs@.subrange(0, 0) =~= Seq::<DnsRecord>::empty());
    while i < upto
        invariant
            i <= upto,
            upto <= rs@.len(),
            c == emitted_count(rs@.subrange(0, i as int)),
            c <= i,
        decreases upto - i,
    {
        assert(rs@.subrange(0, i + 1).drop_last() =~= rs@.subrange(0, i as int));
        assert(rs@.subrange(0, i + 1).last() == rs@[i as int]);
        if rs[i].emitted() {
            c = c + 1;
        }
        i = i + 1;
    }
    c
}

/// The smaller of two integers.
pub open spec fn min_int(a: int, b: int) -> int {
    if a <= b {
        a
    } else {
        b
    }
}

/// The encoding of a message with header `h`, questions `qs` and records
/// `rs` written at `q` with suffix map `m`.
pub open spec fn encode_message(
    h: DnsHeader,
    qs: Seq<DnsQuestion>,
    rs: Seq<DnsRecord>,
    m: Map<Seq<char>, usize>,
    q: int,
    remember: bool,
) -> (Seq<u8>, Map<Seq<char>, usize>) {
    let a = encode_questions(qs, m, q + 12, remember);
    let b = encode_records(rs, a.1, q + 12 + a.0.len(), remember);
    (h.wire() + a.0 + b.0, b.1)
}

/// Writes questions one after another at the cursor.
fn write_questions<T: PacketBuffer>(buffer: &mut T, qs: &Vec<DnsQuestion>) -> (r: Result<(), BufferError>)
    requires
        old(buffer)@.wf(),
        questions_valid(qs@),
    ensures
        old(buffer)@.wrote_encoding(
            final(buffer)@,
            encode_questions(qs@, old(buffer)@.labels, old(buffer)@.cursor, old(buffer)@.remembers),
            r,
        ),
{
    let ghost v0 = buffer@;
    let mut i: usize = 0;
    assert(qs@.subrange(0, 0) =~= Seq::<DnsQuestion>::empty());
    assert(v0.data.subrange(0, v0.cursor) + seq![] + v0.data.subrange(v0.cursor, v0.data.len() as int) =~= v0.data);
    while i < qs.len()
        invariant
            v0 == old(buffer)@,
            v0.wf(),
            i <= qs@.len(),
            questions_valid(qs@),
            v0.wrote_encoding(
                buffer@,
                encode_questions(qs@.subrange(0, i as int), v0.labels, v0.cursor, v0.remembers),
                Ok(()),
            ),
            v0.room(encode_questions(qs@.subrange(0, i as int), v0.labels, v0.cursor, v0.remembers).0.len() as int),
        decreases qs@.len() - i,
    {
        let ghost a = encode_questions(qs@.subrange(0, i as int), v0.labels, v0.cursor, v0.remembers);
        let ghost v1 = buffer@;
        let r = qs[i].write(buffer);
        let ghost b = encode_question(qs@[i as int].name@, qs@[i as int].qtype, v1.labels, v1.cursor, v1.remembers);
        let br = match r {
            Ok(()) => Ok(()),
            Err(ProtocolError::Buffer(e)) => Err(e),
        };
        proof {
            assert(valid_name(qs@[i as int].name@));
            assert(qs@.subrange(0, i + 1).drop_last() =~= qs@.subrange(0, i as int));
            assert(qs@.subrange(0, i + 1).last() == qs@[i as int]);
            lemma_wrote_seq(v0, v1, buffer@, a, b, Ok(()), br);
        }
        if br.is_err() {
            proof {
                lemma_questions_prefix_len(qs@, i + 1, v0.labels, v0.cursor, v0.remembers);
            }
            return br;
        }
        i = i + 1;
    }
    assert(qs@.subrange(0, i as int) =~= qs@);
    Ok(())
}

/// Whether every question name can be encoded.
fn questions_ok(qs: &Vec<DnsQuestion>) -> (r: bool)
    ensures
        r == questions_valid(qs@),
{
    let mut i: usize = 0;
    while i < qs.len()
        invariant
            i <= qs@.len(),
            forall|k: int| 0 <= k < i ==> valid_name(#[trigger] qs@[k].name@),
        decreases qs@.len() - i,
    {
        if !name_is_valid(qs[i].name.as_str()) {
            return false;
        }
        i = i + 1;
    }
    true
}

impl DnsRecord {
    /// Whether every name of the record can be encoded.
    pub fn names_ok(&self) -> (r: bool)
        ensures
            r == self.names_valid(),
    {
        match self {
            DnsRecord::OPT { .. } => true,
            DnsRecord::UNKNOWN { .. } => true,
            _ => {
                let domain = match self.get_domain() {
                    Some(d) => d,
                    None => return true,
                };
                name_is_valid(domain.as_str()) && pieces_ok(&self.rdata_pieces())
            },
        }
    }
}


/// Reads `count` questions at the cursor.
fn read_questions<T: PacketBuffer>(count: u16, buffer: &mut T) -> (r: Result<Vec<DnsQuestion>, ProtocolError>)
    requires
        old(buffer)@.wf(),
    ensures
        final(buffer)@.wf(),
        old(buffer)@.same_kind(final(buffer)@),
        final(buffer)@.data == old(buffer)@.data,
        final(buffer)@.labels == old(buffer)@.labels,
        match decode_questions(old(buffer)@.data, old(buffer)@.cursor, count as nat) {
            Ok(t) => r is Ok && question_views(r->Ok_0@) == t.0 && final(buffer)@.cursor == t.1,
            Err(e) => r == Err::<Vec<DnsQuestion>, ProtocolError>(ProtocolError::Buffer(e)),
        },
{
    let ghost d = buffer@.data;
    let ghost p0 = buffer@.cursor;
    let mut out: Vec<DnsQuestion> = Vec::new();
    let mut i: u16 = 0;
    while i < count
        invariant
            buffer@.wf(),
            old(buffer)@.same_kind(buffer@),
            buffer@.data == d,
            buffer@.labels == old(buffer)@.labels,
            d == old(buffer)@.data,
            p0 == old(buffer)@.cursor,
            i <= count,
            match decode_questions(d, buffer@.cursor, (count - i) as nat) {
                Ok(t) => decode_questions(d, p0, count as nat) == Ok::<(Seq<(Seq<char>, QueryType)>, int), BufferError>((question_views(out@) + t.0, t.1)),
                Err(e) => decode_questions(d, p0, count as nat) == Err::<(Seq<(Seq<char>, QueryType)>, int), BufferError>(e),
            },
        decreases count - i,
    {
        let mut question = DnsQuestion::new(String::new(), QueryType::UNKNOWN(0));
        let ghost c = buffer@.cursor;
        question.read(buffer)?;
        proof {
            assert(question.name@ =~= Seq::<char>::empty() + question.name@);
            let qv = (question.name@, question.qtype);
            match decode_questions(d, buffer@.cursor, (count - i - 1) as nat) {
                Ok(t) => {
                    assert(question_views(out@.push(question)) =~= question_views(out@) + seq![qv]);
                    assert(question_views(out@) + (seq![qv] + t.0) =~= (question_views(out@) + seq![qv]) + t.0);
                },
                Err(_) => {},
            }
        }
        out.push(question);
        i = i + 1;
    }
    proof {
        assert(question_views(out@) + seq![] =~= question_views(out@));
    }
    Ok(out)
}

/// Reads `count` records at the cursor.
fn read_records<T: PacketBuffer>(count: u16, buffer: &mut T) -> (r: Result<Vec<DnsRecord>, ProtocolError>)
    requires
        old(buffer)@.wf(),
    ensures
        final(buffer)@.wf(),
        old(buffer)@.same_kind(final(buffer)@),
        final(buffer)@.data == old(buffer)@.data,
        final(buffer)@.labels == old(buffer)@.labels,
        match decode_records(old(buffer)@.data, old(buffer)@.cursor, count as nat) {
            Ok(t) => r is Ok && record_views(r->Ok_0@) == t.0 && final(buffer)@.cursor == t.1,
            Err(e) => r == Err::<Vec<DnsRecord>, ProtocolError>(ProtocolError::Buffer(e)),
        },
{
    let ghost d = buffer@.data;
    let ghost p0 = buffer@.cursor;
    let mut out: Vec<DnsRecord> = Vec::new();
    let mut i: u16 = 0;
    while i < count
        invariant
            buffer@.wf(),
            old(buffer)@.same_kind(buffer@),
            buffer@.data == d,
            buffer@.labels == old(buffer)@.labels,
            d == old(buffer)@.data,
            p0 == old(buffer)@.cursor,
            i <= count,
            match decode_records(d, buffer@.cursor, (count - i) as nat) {
                Ok(t) => decode_records(d, p0, count as nat) == Ok::<(Seq<RecordView>, int), BufferError>((record_views(out@) + t.0, t.1)),
                Err(e) => decode_records(d, p0, count as nat) == Err::<(Seq<RecordView>, int), BufferError>(e),
            },
        decreases count - i,
    {
        let rec = DnsRecord::read(buffer)?;
        proof {
            match decode_records(d, buffer@.cursor, (count - i - 1) as nat) {
                Ok(t) => {
                    assert(record_views(out@.push(rec)) =~= record_views(out@) + seq![rec@]);
                    assert(record_views(out@) + (seq![rec@] + t.0) =~= (record_views(out@) + seq![rec@]) + t.0);
                },
                Err(_) => {},
            }
        }
        out.push(rec);
        i = i + 1;
    }
    proof {
        assert(record_views(out@) + seq![] =~= record_views(out@));
    }
    Ok(out)
}

impl DnsPacket {
    /// An empty message with an all-zero header.
    pub fn new() -> (r: Self)
        ensures
            r.header == DnsHeader::empty(),
            r.questions@.len() == 0,
            r.answers@.len() == 0,
            r.authorities@.len() == 0,
            r.resources@.len() == 0,
    {
        DnsPacket {
            header: DnsHeader::new(),
            questions: Vec::new(),
            answers: Vec::new(),
            authorities: Vec::new(),
            resources: Vec::new(),
        }
    }

    /// Reads a whole message at the cursor.
    pub fn from_buffer<T: PacketBuffer>(buffer: &mut T) -> (r: Result<Self, ProtocolError>)
        requires
            old(buffer)@.wf(),
        ensures
            final(buffer)@.wf(),
            old(buffer)@.same_kind(final(buffer)@),
            final(buffer)@.data == old(buffer)@.data,
            final(buffer)@.labels == old(buffer)@.labels,
            match decode_packet(old(buffer)@.data, old(buffer)@.cursor) {
                Ok(t) => r is Ok && r->Ok_0@ == t.0 && final(buffer)@.cursor == t.1,
                Err(e) => r == Err::<DnsPacket, ProtocolError>(ProtocolError::Buffer(e)),
            },
    {
        let mut header = DnsHeader::new();
        header.read(buffer)?;
        let questions = read_questions(header.questions, buffer)?;
        let answers = read_records(header.answers, buffer)?;
        let authorities = read_records(header.authoritative_entries, buffer)?;
        let resources = read_records(header.resource_entries, buffer)?;
        Ok(DnsPacket { header, questions, answers, authorities, resources })
    }

    /// Answers, authorities and additional records, in that order.
    pub open spec fn records(&self) -> Seq<DnsRecord> {
        self.answers@ + self.authorities@ + self.resources@
    }

    /// Whether every name of the message can be encoded.
    pub open spec fn names_valid(&self) -> bool {
        questions_valid(self.questions@) && records_valid(self.records())
    }

    /// Where sizing starts after the header and questions: the suffix map
    /// and position of a fresh encoding.
    pub open spec fn sizing_start(&self) -> (Map<Seq<char>, usize>, int) {
        let e = encode_questions(self.questions@, Map::empty(), 12, true);
        (e.1, 12 + e.0.len() as int)
    }

    /// How many records fit within `max` octets.
    pub open spec fn fit(&self, max: int) -> nat {
        fit_from(self.records(), 0, self.sizing_start().0, self.sizing_start().1, max)
    }

    /// The header emitted when the first `k` records are written: counts
    /// reflect the records actually written (OPT and unknown ones are
    /// skipped), and TC is set when records were left out.
    pub open spec fn emitted_header(&self, k: int) -> DnsHeader {
        let na = min_int(k, self.answers@.len() as int);
        let nu = min_int(k - na, self.authorities@.len() as int);
        DnsHeader {
            questions: self.questions@.len() as u16,
            answers: emitted_count(self.answers@.subrange(0, na)) as u16,
            authoritative_entries: emitted_count(self.authorities@.subrange(0, nu)) as u16,
            resource_entries: emitted_count(self.resources@.subrange(0, k - na - nu)) as u16,
            truncated_message: self.header.truncated_message || k < self.records().len(),
            ..self.header
        }
    }

    /// The record at index `i` of answers, authorities and additional records.
    fn record_at(&self, i: usize) -> (r: &DnsRecord)
        requires
            i < self.records().len(),
        ensures
            *r == self.records()[i as int],
    {
        if i < self.answers.len() {
            &self.answers[i]
        } else if i - self.answers.len() < self.authorities.len() {
            &self.authorities[i - self.answers.len()]
        } else {
            &self.resources[i - self.answers.len() - self.authorities.len()]
        }
    }

    /// Whether every record's names can be encoded.
    fn records_ok(&self) -> (r: bool)
        requires
            self.records().len() <= usize::MAX,
        ensures
            r == records_valid(self.records()),
    {
        let n = self.answers.len() + self.authorities.len() + self.resources.len();
        let mut i: usize = 0;
        while i < n
            invariant
                n == self.records().len(),
                i <= n,
                forall|k: int| 0 <= k < i ==> (#[trigger] self.records()[k]).names_valid(),
            decreases n - i,
        {
            if !self.record_at(i).names_ok() {
                return false;
            }
            i = i + 1;
        }
        true
    }

    /// Writes the first `k` records at the cursor.
    fn write_records<T: PacketBuffer>(&self, buffer: &mut T, k: usize) -> (r: Result<(), BufferError>)
        requires
            old(buffer)@.wf(),
            k <= self.records().len(),
            records_valid(self.records()),
        ensures
            old(buffer)@.wrote_encoding(
                final(buffer)@,
                encode_records(
                    self.records().subrange(0, k as int),
                    old(buffer)@.labels,
                    old(buffer)@.cursor,
                    old(buffer)@.remembers,
                ),
                r,
            ),
    {
        let ghost v0 = buffer@;
        let ghost rs = self.records().subrange(0, k as int);
        let mut i: usize = 0;
        assert(rs.subrange(0, 0) =~= Seq::<DnsRecord>::empty());
        assert(v0.data.subrange(0, v0.cursor) + seq![] + v0.data.subrange(v0.cursor, v0.data.len() as int) =~= v0.data);
        while i < k
            invariant
                v0 == old(buffer)@,
                v0.wf(),
                i <= k,
                k <= self.records().len(),
                rs == self.records().subrange(0, k as int),
                records_valid(self.records()),
                v0.wrote_encoding(
                    buffer@,
                    encode_records(rs.subrange(0, i as int), v0.labels, v0.cursor, v0.remembers),
                    Ok(()),
                ),
                v0.room(encode_records(rs.subrange(0, i as int), v0.labels, v0.cursor, v0.remembers).0.len() as int),
            decreases k - i,
        {
            let ghost a = encode_records(rs.subrange(0, i as int), v0.labels, v0.cursor, v0.remembers);
            let ghost v1 = buffer@;
            let rec = self.record_at(i);
            assert(rec.names_valid());
            let r = rec.write(buffer);
            let ghost b = rec.encode(v1.labels, v1.cursor, v1.remembers);
            let br = match r {
                Ok(_) => Ok(()),
                Err(ProtocolError::Buffer(e)) => Err(e),
            };
            proof {
                assert(rs.subrange(0, i + 1).drop_last() =~= rs.subrange(0, i as int));
                assert(rs.subrange(0, i + 1).last() == rs[i as int]);
                lemma_wrote_seq(v0, v1, buffer@, a, b, Ok(()), br);
            }
            if br.is_err() {
                proof {
                    lemma_records_prefix_len(rs, i + 1, v0.labels, v0.cursor, v0.remembers);
                }
                return br;
            }
            i = i + 1;
        }
        assert(rs.subrange(0, i as int) =~= rs);
        Ok(())
    }

    /// How many records fit within `max_size` octets, counting from a fresh
    /// encoding of the header and questions.
    fn count_fitting(&self, max_size: usize) -> (k: usize)
        requires
            self.names_valid(),
            self.records().len() <= usize::MAX,
        ensures
            k == self.fit(max_size as int),
            k <= self.records().len(),
    {
        let n = self.answers.len() + self.authorities.len() + self.resources.len();
        let mut scratch = VectorPacketBuffer::new();
        let _ = self.header.write(&mut scratch);
        let ghost e = encode_questions(self.questions@, Map::empty(), 12, true);
        let ghost rs = self.records();
        match write_questions(&mut scratch, &self.questions) {
            Ok(()) => {},
            Err(_) => {
                proof {
                    if rs.len() > 0 {
                        assert(fit_from(rs, 0, e.1, 12 + e.0.len() as int, max_size as int) == 0);
                    }
                }
                return 0;
            },
        }
        let mut count: usize = 0;
        let mut done = false;
        while count < n && !done
            invariant
                n == rs.len(),
                rs == self.records(),
                records_valid(rs),
                count <= n,
                scratch@.wf(),
                scratch@.remembers,
                scratch@.capacity is None,
                !done ==> self.fit(max_size as int) == count + fit_from(rs, count as int, scratch@.labels, scratch@.cursor, max_size as int),
                done ==> self.fit(max_size as int) == count,
            decreases (n - count) * 2 + if done { 0int } else { 1int },
        {
            let rec = self.record_at(count);
            let ghost v1 = scratch@;
            match rec.write(&mut scratch) {
                Ok(_) => {
                    if scratch.pos() > max_size {
                        done = true;
                    } else {
                        count = count + 1;
                    }
                },
                Err(_) => {
                    done = true;
                },
            }
        }
        count
    }

    /// Sets the header for a message whose first `k` records are written.
    fn set_counts(&mut self, k: usize)
        requires
            k <= old(self).records().len(),
            old(self).questions@.len() <= 0xFFFF,
            old(self).answers@.len() <= 0xFFFF,
            old(self).authorities@.len() <= 0xFFFF,
            old(self).resources@.len() <= 0xFFFF,
        ensures
            final(self).header == old(self).emitted_header(k as int),
            final(self).questions == old(self).questions,
            final(self).answers == old(self).answers,
            final(self).authorities == old(self).authorities,
            final(self).resources == old(self).resources,
    {
        let n = self.answers.len() + self.authorities.len() + self.resources.len();
        let na = if k < self.answers.len() {
            k
        } else {
            self.answers.len()
        };
        let nu = if k - na < self.authorities.len() {
            k - na
        } else {
            self.authorities.len()
        };
        let ca = count_emitted(&self.answers, na);
        let cu = count_emitted(&self.authorities, nu);
        let cr = count_emitted(&self.resources, k - na - nu);
        self.header.questions = self.questions.len() as u16;
        self.header.answers = ca as u16;
        self.header.authoritative_entries = cu as u16;
        self.header.resource_entries = cr as u16;
        if k < n {
            self.header.truncated_message = true;
        }
    }

    /// Writes the header, the questions and the first `k` records at the cursor.
    fn emit<T: PacketBuffer>(&self, buffer: &mut T, k: usize) -> (r: Result<(), ProtocolError>)
        requires
            old(buffer)@.wf(),
            k <= self.records().len(),
            self.names_valid(),
        ensures
            old(buffer)@.wrote_encoding(
                final(buffer)@,
                encode_message(
                    self.header,
                    self.questions@,
                    self.records().subrange(0, k as int),
                    old(buffer)@.labels,
                    old(buffer)@.cursor,
                    old(buffer)@.remembers,
                ),
                buffer_outcome(r),
            ),
    {
        let ghost v0 = buffer@;
        let ghost h = self.header;
        let ghost eq = encode_questions(self.questions@, v0.labels, v0.cursor + 12, v0.remembers);
        let ghost er = encode_records(self.records().subrange(0, k as int), eq.1, v0.cursor + 12 + eq.0.len(), v0.remembers);
        let r1 = match self.header.write(buffer) {
            Ok(()) => Ok(()),
            Err(ProtocolError::Buffer(e)) => Err(e),
        };
        proof {
            lemma_bytes_as_encoding(v0, buffer@, h.wire(), r1);
        }
        if let Err(e) = r1 {
            proof {
                lemma_fail_extends(v0, buffer@, (h.wire(), v0.labels), eq.0 + er.0, r1);
                assert(h.wire() + (eq.0 + er.0) =~= h.wire() + eq.0 + er.0);
            }
            return Err(ProtocolError::Buffer(e));
        }
        let ghost v1 = buffer@;
        let r2 = write_questions(buffer, &self.questions);
        proof {
            lemma_wrote_seq(v0, v1, buffer@, (h.wire(), v0.labels), eq, Ok(()), r2);
        }
        if let Err(e) = r2 {
            proof {
                lemma_fail_extends(v0, buffer@, (h.wire() + eq.0, eq.1), er.0, r2);
            }
            return Err(ProtocolError::Buffer(e));
        }
        let ghost v2 = buffer@;
        let r3 = self.write_records(buffer, k);
        proof {
            lemma_wrote_seq(v0, v2, buffer@, (h.wire() + eq.0, eq.1), er, Ok(()), r3);
        }
        match r3 {
            Ok(()) => Ok(()),
            Err(e) => Err(ProtocolError::Buffer(e)),
        }
    }

    /// Writes the message at the cursor within `max_size` octets: records
    /// (answers, then authorities, then additional) are written while the
    /// running size stays within the budget; when one does not fit, TC is
    /// set and the rest are left out. The header counts what is written.
    pub fn write<T: PacketBuffer>(&mut self, buffer: &mut T, max_size: usize) -> (r: Result<(), ProtocolError>)
        requires
            old(buffer)@.wf(),
            old(self).questions@.len() <= 0xFFFF,
            old(self).answers@.len() <= 0xFFFF,
            old(self).authorities@.len() <= 0xFFFF,
            old(self).resources@.len() <= 0xFFFF,
        ensures
            final(buffer)@.wf(),
            old(buffer)@.same_kind(final(buffer)@),
            final(self).questions == old(self).questions,
            final(self).answers == old(self).answers,
            final(self).authorities == old(self).authorities,
            final(self).resources == old(self).resources,
            !old(self).names_valid() ==> r == Err::<(), ProtocolError>(
                ProtocolError::Buffer(BufferError::InvalidLabel),
            ) && final(buffer)@ == old(buffer)@ && final(self).header == old(self).header,
            old(self).names_valid() ==> {
                let k = old(self).fit(max_size as int);
                let h = old(self).emitted_header(k as int);
                &&& final(self).header == h
                &&& old(buffer)@.wrote_encoding(
                    final(buffer)@,
                    encode_message(
                        h,
                        old(self).questions@,
                        old(self).records().subrange(0, k as int),
                        old(buffer)@.labels,
                        old(buffer)@.cursor,
                        old(buffer)@.remembers,
                    ),
                    buffer_outcome(r),
                )
            },
    {
        if !questions_ok(&self.questions) || !self.records_ok() {
            return Err(ProtocolError::Buffer(BufferError::InvalidLabel));
        }
        let n = self.answers.len() + self.authorities.len() + self.resources.len();
        let k = self.count_fitting(max_size);
        self.set_counts(k);
        self.emit(buffer, k)
    }
}


/// The decimal digit character of `d`.
pub open spec fn digit_char(d: int) -> char {
    if d == 0 {
        '0'
    } else if d == 1 {
        '1'
    } else if d == 2 {
        '2'
    } else if d == 3 {
        '3'
    } else if d == 4 {
        '4'
    } else if d == 5 {
        '5'
    } else if d == 6 {
        '6'
    } else if d == 7 {
        '7'
    } else if d == 8 {
        '8'
    } else {
        '9'
    }
}

/// The decimal text of an octet, without leading zeros.
pub open spec fn decimal(b: u8) -> Seq<char> {
    if b >= 100 {
        seq![digit_char(b as int / 100), digit_char((b as int / 10) % 10), digit_char(b as int % 10)]
    } else if b >= 10 {
        seq![digit_char(b as int / 10), digit_char(b as int % 10)]
    } else {
        seq![digit_char(b as int)]
    }
}

/// The dotted-decimal text of an IPv4 address.
pub open spec fn dotted_quad(a: Seq<u8>) -> Seq<char> {
    decimal(a[0]) + seq!['.'] + decimal(a[1]) + seq!['.'] + decimal(a[2]) + seq!['.'] + decimal(a[3])
}

/// Appends the decimal digit `d` to `out`.
fn push_digit(out: &mut String, d: u8)
    requires
        d < 10,
    ensures
        final(out)@ == old(out)@ + seq![digit_char(d as int)],
{
    let t = match d {
        0 => "0",
        1 => "1",
        2 => "2",
        3 => "3",
        4 => "4",
        5 => "5",
        6 => "6",
        7 => "7",
        8 => "8",
        _ => "9",
    };
    proof {
        reveal_strlit("0");
        reveal_strlit("1");
        reveal_strlit("2");
        reveal_strlit("3");
        reveal_strlit("4");
        reveal_strlit("5");
        reveal_strlit("6");
        reveal_strlit("7");
        reveal_strlit("8");
        reveal_strlit("9");
    }
    out.append(t);
}

/// Appends the decimal text of `b` to `out`.
fn push_decimal(out: &mut String, b: u8)
    ensures
        final(out)@ == old(out)@ + decimal(b),
{
    if b >= 100 {
        push_digit(out, b / 100);
        push_digit(out, (b / 10) % 10);
    } else if b >= 10 {
        push_digit(out, b / 10);
    }
    push_digit(out, b % 10);
    assert(final(out)@ =~= old(out)@ + decimal(b));
}

/// The dotted-decimal text of an IPv4 address, such as `127.0.0.1`.
pub fn format_ipv4(addr: &[u8; 4]) -> (r: String)
    ensures
        r@ == dotted_quad(addr@),
{
    let mut out = String::new();
    push_decimal(&mut out, addr[0]);
    out.append(".");
    push_decimal(&mut out, addr[1]);
    out.append(".");
    push_decimal(&mut out, addr[2]);
    out.append(".");
    push_decimal(&mut out, addr[3]);
    proof {
        reveal_strlit(".");
    }
    assert(out@ =~= dotted_quad(addr@));
    out
}

/// Whether `owner` is `name` or one of its ancestors: the root, the name
/// itself, or a suffix of it that starts right after a dot.
pub open spec fn is_ancestor(owner: Seq<char>, name: Seq<char>) -> bool {
    ||| owner.len() == 0
    ||| owner == name
    ||| (name.len() > owner.len() && name.subrange(name.len() - owner.len(), name.len() as int)
        == owner && name[name.len() - owner.len() - 1] == '.')
}

/// Whether `owner` is `name` or one of its ancestors.
pub fn name_is_ancestor(owner: &str, name: &str) -> (r: bool)
    ensures
        r == is_ancestor(owner@, name@),
{
    let lo = owner.unicode_len();
    let ln = name.unicode_len();
    if lo == 0 {
        return true;
    }
    if lo > ln {
        return false;
    }
    let off = ln - lo;
    let mut i: usize = 0;
    while i < lo
        invariant
            lo == owner@.len(),
            ln == name@.len(),
            off == ln - lo,
            i <= lo,
            forall|j: int| 0 <= j < i ==> owner@[j] == name@[off + j],
        decreases lo - i,
    {
        if owner.get_char(i) != name.get_char(off + i) {
            assert(name@.subrange(off as int, ln as int)[i as int] != owner@[i as int]);
            return false;
        }
        i = i + 1;
    }
    assert(name@.subrange(off as int, ln as int) =~= owner@);
    if off == 0 {
        assert(owner@ =~= name@);
        return true;
    }
    name.get_char(off - 1) == '.'
}

/// The SOA minimum of the first SOA record of `rs` from index `i` on.
pub open spec fn soa_minimum_from(rs: Seq<RecordView>, i: int) -> Option<u32>
    decreases rs.len() - i,
{
    if i < 0 || i >= rs.len() {
        None
    } else {
        match rs[i] {
            RecordView::SOA { minimum, .. } => Some(minimum),
            _ => soa_minimum_from(rs, i + 1),
        }
    }
}

/// The address of the first A record of `rs` from index `i` on.
pub open spec fn first_a_from(rs: Seq<RecordView>, i: int) -> Option<Seq<u8>>
    decreases rs.len() - i,
{
    if i < 0 || i >= rs.len() {
        None
    } else {
        match rs[i] {
            RecordView::A { addr, .. } => Some(addr),
            _ => first_a_from(rs, i + 1),
        }
    }
}

/// The address of the first A record of `rs` from index `i` on owned by `host`.
pub open spec fn glue_from(rs: Seq<RecordView>, host: Seq<char>, i: int) -> Option<Seq<u8>>
    decreases rs.len() - i,
{
    if i < 0 || i >= rs.len() {
        None
    } else {
        match rs[i] {
            RecordView::A { domain, addr, .. } => if domain == host {
                Some(addr)
            } else {
                glue_from(rs, host, i + 1)
            },
            _ => glue_from(rs, host, i + 1),
        }
    }
}

/// The host of the first NS record of `auth` from index `i` on whose owner
/// is an ancestor of `qname`.
pub open spec fn delegation_from(auth: Seq<RecordView>, qname: Seq<char>, i: int) -> Option<Seq<char>>
    decreases auth.len() - i,
{
    if i < 0 || i >= auth.len() {
        None
    } else {
        match auth[i] {
            RecordView::NS { domain, host, .. } => if is_ancestor(domain, qname) {
                Some(host)
            } else {
                delegation_from(auth, qname, i + 1)
            },
            _ => delegation_from(auth, qname, i + 1),
        }
    }
}

/// The glue address for the first NS record of `auth` from index `i` on
/// whose owner is an ancestor of `qname` and whose host has an A record in `res`.
pub open spec fn resolved_from(auth: Seq<RecordView>, res: Seq<RecordView>, qname: Seq<char>, i: int) -> Option<Seq<u8>>
    decreases auth.len() - i,
{
    if i < 0 || i >= auth.len() {
        None
    } else {
        match auth[i] {
            RecordView::NS { domain, host, .. } => if is_ancestor(domain, qname) && glue_from(res, host, 0) is Some {
                glue_from(res, host, 0)
            } else {
                resolved_from(auth, res, qname, i + 1)
            },
            _ => resolved_from(auth, res, qname, i + 1),
        }
    }
}

/// Whether some A record of `rs` is owned by `host`.
pub open spec fn has_a_for(rs: Seq<RecordView>, host: Seq<char>) -> bool {
    exists|j: int| 0 <= j < rs.len() && (#[trigger] rs[j] is A) && rs[j]->A_domain == host
}

/// The CNAME records of `rs` up to index `n` whose target has no A record in `rs`.
pub open spec fn unresolved_cnames_upto(rs: Seq<RecordView>, n: int) -> Seq<RecordView>
    decreases n,
{
    if n <= 0 || n > rs.len() {
        seq![]
    } else {
        let prev = unresolved_cnames_upto(rs, n - 1);
        match rs[n - 1] {
            RecordView::CNAME { host, .. } => if has_a_for(rs, host) {
                prev
            } else {
                prev.push(rs[n - 1])
            },
            _ => prev,
        }
    }
}

impl DnsRecord {
    /// A copy of the record.
    pub fn duplicate(&self) -> (r: DnsRecord)
        ensures
            r == *self,
    {
        match self {
            DnsRecord::UNKNOWN { domain, qtype, data_len, ttl } => DnsRecord::UNKNOWN {
                domain: domain.clone(),
                qtype: *qtype,
                data_len: *data_len,
                ttl: *ttl,
            },
            DnsRecord::A { domain, addr, ttl } => DnsRecord::A { domain: domain.clone(), addr: *addr, ttl: *ttl },
            DnsRecord::NS { domain, host, ttl } => DnsRecord::NS {
                domain: domain.clone(),
                host: host.clone(),
                ttl: *ttl,
            },
            DnsRecord::CNAME { domain, host, ttl } => DnsRecord::CNAME {
                domain: domain.clone(),
                host: host.clone(),
                ttl: *ttl,
            },
            DnsRecord::SOA { domain, m_name, r_name, serial, refresh, retry, expire, minimum, ttl } => {
                DnsRecord::SOA {
                    domain: domain.clone(),
                    m_name: m_name.clone(),
                    r_name: r_name.clone(),
                    serial: *serial,
                    refresh: *refresh,
                    retry: *retry,
                    expire: *expire,
                    minimum: *minimum,
                    ttl: *ttl,
                }
            },
            DnsRecord::MX { domain, priority, host, ttl } => DnsRecord::MX {
                domain: domain.clone(),
                priority: *priority,
                host: host.clone(),
                ttl: *ttl,
            },
            DnsRecord::TXT { domain, data, ttl } => DnsRecord::TXT {
                domain: domain.clone(),
                data: data.clone(),
                ttl: *ttl,
            },
            DnsRecord::AAAA { domain, addr, ttl } => DnsRecord::AAAA {
                domain: domain.clone(),
                addr: *addr,
                ttl: *ttl,
            },
            DnsRecord::SRV { domain, priority, weight, port, host, ttl } => DnsRecord::SRV {
                domain: domain.clone(),
                priority: *priority,
                weight: *weight,
                port: *port,
                host: host.clone(),
                ttl: *ttl,
            },
            DnsRecord::OPT { packet_len, flags, data } => DnsRecord::OPT {
                packet_len: *packet_len,
                flags: *flags,
                data: data.clone(),
            },
        }
    }
}

/// Whether some A record of `rs` is owned by `host`.
fn has_a_record_for(rs: &Vec<DnsRecord>, host: &String) -> (r: bool)
    ensures
        r == has_a_for(record_views(rs@), host@),
{
    let ghost v = record_views(rs@);
    let mut j: usize = 0;
    while j < rs.len()
        invariant
            j <= rs@.len(),
            v == record_views(rs@),
            forall|k: int| 0 <= k < j ==> !((#[trigger] v[k] is A) && v[k]->A_domain == host@),
        decreases rs@.len() - j,
    {
        if let DnsRecord::A { domain, .. } = &rs[j] {
            if *domain == *host {
                assert(v[j as int] is A && v[j as int]->A_domain == host@);
                return true;
            }
        }
        j = j + 1;
    }
    false
}

/// The address of the first A record of `rs` owned by `host`.
fn glue_for(rs: &Vec<DnsRecord>, host: &String) -> (r: Option<[u8; 4]>)
    ensures
        match glue_from(record_views(rs@), host@, 0) {
            Some(a) => r is Some && r->Some_0@ == a,
            None => r is None,
        },
{
    let ghost v = record_views(rs@);
    let mut j: usize = 0;
    while j < rs.len()
        invariant
            j <= rs@.len(),
            v == record_views(rs@),
            glue_from(v, host@, 0) == glue_from(v, host@, j as int),
        decreases rs@.len() - j,
    {
        if let DnsRecord::A { domain, addr, .. } = &rs[j] {
            if *domain == *host {
                return Some(*addr);
            }
        }
        j = j + 1;
    }
    None
}

impl DnsPacket {
    /// The SOA minimum of the first SOA record among the authorities.
    pub fn get_ttl_from_soa(&self) -> (r: Option<u32>)
        ensures
            r == soa_minimum_from(record_views(self.authorities@), 0),
    {
        let ghost v = record_views(self.authorities@);
        let mut i: usize = 0;
        while i < self.authorities.len()
            invariant
                i <= self.authorities@.len(),
                v == record_views(self.authorities@),
                soa_minimum_from(v, 0) == soa_minimum_from(v, i as int),
            decreases self.authorities@.len() - i,
        {
            if let DnsRecord::SOA { minimum, .. } = &self.authorities[i] {
                return Some(*minimum);
            }
            i = i + 1;
        }
        None
    }

    /// The dotted address of the first A record among the answers.
    pub fn get_random_a(&self) -> (r: Option<String>)
        ensures
            match first_a_from(record_views(self.answers@), 0) {
                Some(a) => r is Some && r->Some_0@ == dotted_quad(a),
                None => r is None,
            },
    {
        let ghost v = record_views(self.answers@);
        let mut i: usize = 0;
        while i < self.answers.len()
            invariant
                i <= self.answers@.len(),
                v == record_views(self.answers@),
                first_a_from(v, 0) == first_a_from(v, i as int),
            decreases self.answers@.len() - i,
        {
            if let DnsRecord::A { addr, .. } = &self.answers[i] {
                return Some(format_ipv4(addr));
            }
            i = i + 1;
        }
        None
    }

    /// The CNAME answers whose target has no A record among the answers.
    pub fn get_unresolved_cnames(&self) -> (r: Vec<DnsRecord>)
        ensures
            record_views(r@) == unresolved_cnames_upto(
                record_views(self.answers@),
                self.answers@.len() as int,
            ),
    {
        let ghost v = record_views(self.answers@);
        let mut out: Vec<DnsRecord> = Vec::new();
        let mut i: usize = 0;
        while i < self.answers.len()
            invariant
                i <= self.answers@.len(),
                v == record_views(self.answers@),
                record_views(out@) == unresolved_cnames_upto(v, i as int),
            decreases self.answers@.len() - i,
        {
            if let DnsRecord::CNAME { host, .. } = &self.answers[i] {
                if !has_a_record_for(&self.answers, host) {
                    let c = self.answers[i].duplicate();
                    out.push(c);
                    assert(record_views(out@) =~= unresolved_cnames_upto(v, i as int).push(v[i as int]));
                }
            }
            i = i + 1;
        }
        out
    }

    /// The glue address of the first NS authority whose owner is an ancestor
    /// of `qname` and whose host has an A record among the additional records.
    pub fn get_resolved_ns(&self, qname: &str) -> (r: Option<String>)
        ensures
            match resolved_from(record_views(self.authorities@), record_views(self.resources@), qname@, 0) {
                Some(a) => r is Some && r->Some_0@ == dotted_quad(a),
                None => r is None,
            },
    {
        let ghost v = record_views(self.authorities@);
        let ghost rv = record_views(self.resources@);
        let mut i: usize = 0;
        while i < self.authorities.len()
            invariant
                i <= self.authorities@.len(),
                v == record_views(self.authorities@),
                rv == record_views(self.resources@),
                resolved_from(v, rv, qname@, 0) == resolved_from(v, rv, qname@, i as int),
            decreases self.authorities@.len() - i,
        {
            if let DnsRecord::NS { domain, host, .. } = &self.authorities[i] {
                if name_is_ancestor(domain.as_str(), qname) {
                    if let Some(addr) = glue_for(&self.resources, host) {
                        return Some(format_ipv4(&addr));
                    }
                }
            }
            i = i + 1;
        }
        None
    }

    /// The host of the first NS authority whose owner is an ancestor of `qname`.
    pub fn get_unresolved_ns(&self, qname: &str) -> (r: Option<String>)
        ensures
            match delegation_from(record_views(self.authorities@), qname@, 0) {
                Some(h) => r is Some && r->Some_0@ == h,
                None => r is None,
            },
    {
        let ghost v = record_views(self.authorities@);
        let mut i: usize = 0;
        while i < self.authorities.len()
            invariant
                i <= self.authorities@.len(),
                v == record_views(self.authorities@),
                delegation_from(v, qname@, 0) == delegation_from(v, qname@, i as int),
            decreases self.authorities@.len() - i,
        {
            if let DnsRecord::NS { domain, host, .. } = &self.authorities[i] {
                if name_is_ancestor(domain.as_str(), qname) {
                    return Some(host.clone());
                }
            }
            i = i + 1;
        }
        None
    }
}


/// Whether a name has no trailing dot.
pub open spec fn no_trailing_dot(n: Seq<char>) -> bool {
    n.len() == 0 || n[n.len() - 1] != '.'
}

proof fn lemma_no_remember(n: Seq<char>, k: int, m: Map<Seq<char>, usize>, q: int)
    ensures
        encode_name_from(n, k, m, q, false).1 == m,
    decreases n.len() - k,
{
    if 0 <= k < n.len() {
        let key = n.subrange(k, n.len() as int);
        if !(m.contains_key(key) && m[key] <= crate::buffer::MAX_POINTER_TARGET) {
            let l = crate::buffer::label_len(n, k);
            if k + l < n.len() {
                lemma_no_remember(n, k + l + 1, m, q + 1 + l);
            }
        }
    }
}

proof fn lemma_u32_octets(d: Seq<u8>, p: int, v: int)
    requires
        0 <= v < 0x1_0000_0000,
        0 <= p,
        p + 4 <= d.len(),
        d.subrange(p, p + 4) == u32_bytes(v),
    ensures
        be32(d, p) == v,
{
    let w = u32_bytes(v);
    assert(d[p] == w[0] && d[p + 1] == w[1] && d[p + 2] == w[2] && d[p + 3] == w[3]);
    assert((v / 0x1000000) * 0x1000000 + ((v / 0x10000) % 256) * 0x10000 + ((v / 256) % 256) * 256
        + v % 256 == v) by (nonlinear_arith)
        requires
            0 <= v < 0x1_0000_0000,
    ;
}

/// The fixed fields of a record read back: the owner name in lowercase,
/// type, class, TTL and RDLENGTH, and where the data starts.
proof fn lemma_record_head(
    domain: Seq<char>,
    code: u16,
    ttl: u32,
    rd: Seq<u8>,
    q: int,
    d: Seq<u8>,
)
    requires
        valid_name(domain),
        no_trailing_dot(domain),
        rd.len() < 0x10000,
        0 <= q,
        ({
            let ne = encode_name(domain, Map::empty(), q, false).0;
            let enc = ne + u16_bytes(code as int) + u16_bytes(1) + u32_bytes(ttl as int) + u16_bytes(rd.len() as int) + rd;
            &&& q + enc.len() <= d.len()
            &&& d.subrange(q, q + enc.len()) == enc
        }),
    ensures
        ({
            let ne = encode_name(domain, Map::empty(), q, false).0;
            let s = q + ne.len() + 10;
            &&& read_name(d, q) == Ok::<(Seq<char>, int), BufferError>((lower_chars(domain), q + ne.len()))
            &&& be16(d, q + ne.len()) == code
            &&& be16(d, q + ne.len() + 2) == 1
            &&& be32(d, q + ne.len() + 4) == ttl
            &&& be16(d, q + ne.len() + 8) == rd.len()
            &&& s + rd.len() <= d.len()
            &&& d.subrange(s, s + rd.len()) == rd
        }),
{
    let ne = encode_name(domain, Map::empty(), q, false).0;
    let enc = ne + u16_bytes(code as int) + u16_bytes(1) + u32_bytes(ttl as int) + u16_bytes(rd.len() as int) + rd;
    let a = q + ne.len();
    assert(d.subrange(q, a) =~= ne) by {
        assert forall|i: int| 0 <= i < ne.len() implies d.subrange(q, a)[i] == ne[i] by {
            assert(d[q + i] == enc[i]);
        }
    }
    lemma_name_round_trip(domain, Map::empty(), q, false, d);
    assert forall|i: int| 0 <= i < 10 + rd.len() implies #[trigger] d[a + i] == enc[ne.len() + i] by {
        assert(d.subrange(q, q + enc.len())[ne.len() + i] == enc[ne.len() + i]);
    }
    assert(d.subrange(a, a + 2) =~= u16_bytes(code as int)) by {
        assert(d[a] == enc[ne.len() as int]);
        assert(d[a + 1] == enc[ne.len() as int + 1]);
    }
    assert(d.subrange(a + 2, a + 4) =~= u16_bytes(1)) by {
        assert(d[a + 2] == enc[ne.len() as int + 2]);
        assert(d[a + 3] == enc[ne.len() as int + 3]);
    }
    assert(d.subrange(a + 4, a + 8) =~= u32_bytes(ttl as int)) by {
        assert(d[a + 4] == enc[ne.len() as int + 4]);
        assert(d[a + 5] == enc[ne.len() as int + 5]);
        assert(d[a + 6] == enc[ne.len() as int + 6]);
        assert(d[a + 7] == enc[ne.len() as int + 7]);
    }
    assert(d.subrange(a + 8, a + 10) =~= u16_bytes(rd.len() as int)) by {
        assert(d[a + 8] == enc[ne.len() as int + 8]);
        assert(d[a + 9] == enc[ne.len() as int + 9]);
    }
    lemma_u16_octets(d, a, code as int);
    lemma_u16_octets(d, a + 2, 1);
    lemma_u32_octets(d, a + 4, ttl as int);
    lemma_u16_octets(d, a + 8, rd.len() as int);
    assert(d.subrange(a + 10, a + 10 + rd.len()) =~= rd) by {
        assert forall|i: int| 0 <= i < rd.len() implies d.subrange(a + 10, a + 10 + rd.len())[i] == rd[i] by {
            assert(d[a + 10 + i] == enc[ne.len() as int + 10 + i]);
        }
    }
}

#[verifier::rlimit(40)]
proof fn lemma_a_round_trip(r: DnsRecord, q: int, d: Seq<u8>)
    requires
        r is A,
        r.names_valid(),
        no_trailing_dot(r@.domain()->Some_0),
        r.encode(Map::empty(), q, false).0.len() < 0x10000,
        0 <= q,
        q + r.encode(Map::empty(), q, false).0.len() <= d.len(),
        d.subrange(q, q + r.encode(Map::empty(), q, false).0.len()) == r.encode(Map::empty(), q, false).0,
    ensures
        decode_record(d, q) == Ok::<(RecordView, int), BufferError>(
            (RecordView::A { domain: lower_chars(r@.domain()->Some_0), addr: r@->A_addr, ttl: r@.ttl() }, q + r.encode(Map::empty(), q, false).0.len()),
        ),
{
    reveal(DnsRecord::encode);
    let v = r@;
    let domain = v.domain()->Some_0;
    let m0 = Map::<Seq<char>, usize>::empty();
    let e = encode_name(domain, m0, q, false);
    lemma_no_remember(domain, 0, m0, q);
    let pre = e.0 + u16_bytes(v.query_type().code() as int) + u16_bytes(1) + u32_bytes(v.ttl() as int);
    let s = q + pre.len() + 2;
    let ps = r.rdata();
    let rd = encode_pieces(ps, e.1, s, false);
    match r {
        DnsRecord::A { addr, .. } => {
            let b = seq![addr[0], addr[1], addr[2], addr[3]];
            let p0 = Seq::<Piece>::empty();
            let p1 = p0.push(Piece::Byte(addr[0]));
            let p2 = p1.push(Piece::Byte(addr[1]));
            let p3 = p2.push(Piece::Byte(addr[2]));
            let p4 = p3.push(Piece::Byte(addr[3]));
            assert(p4 =~= ps);
            assert(p1.drop_last() =~= p0);
            assert(p2.drop_last() =~= p1);
            assert(p3.drop_last() =~= p2);
            assert(p4.drop_last() =~= p3);
            assert(encode_pieces(p0, e.1, s, false).0 =~= Seq::<u8>::empty());
            assert(encode_pieces(p1, e.1, s, false).0 =~= seq![addr[0]]);
            assert(encode_pieces(p2, e.1, s, false).0 =~= seq![addr[0], addr[1]]);
            assert(encode_pieces(p3, e.1, s, false).0 =~= seq![addr[0], addr[1], addr[2]]);
            assert(encode_pieces(p4, e.1, s, false).0 =~= b);
            assert(rd.0 =~= b);
            assert(b =~= addr@);
            lemma_record_head(domain, 1, v.ttl(), rd.0, q, d);
        },
        _ => {},
    }
}

#[verifier::rlimit(40)]
proof fn lemma_ns_round_trip(r: DnsRecord, q: int, d: Seq<u8>)
    requires
        r is NS,
        no_trailing_dot(r@->NS_host),
        r.names_valid(),
        no_trailing_dot(r@.domain()->Some_0),
        r.encode(Map::empty(), q, false).0.len() < 0x10000,
        0 <= q,
        q + r.encode(Map::empty(), q, false).0.len() <= d.len(),
        d.subrange(q, q + r.encode(Map::empty(), q, false).0.len()) == r.encode(Map::empty(), q, false).0,
    ensures
        decode_record(d, q) == Ok::<(RecordView, int), BufferError>(
            (RecordView::NS { domain: lower_chars(r@.domain()->Some_0), host: lower_chars(r@->NS_host), ttl: r@.ttl() }, q + r.encode(Map::empty(), q, false).0.len()),
        ),
{
    reveal(DnsRecord::encode);
    let v = r@;
    let domain = v.domain()->Some_0;
    let m0 = Map::<Seq<char>, usize>::empty();
    let e = encode_name(domain, m0, q, false);
    lemma_no_remember(domain, 0, m0, q);
    let pre = e.0 + u16_bytes(v.query_type().code() as int) + u16_bytes(1) + u32_bytes(v.ttl() as int);
    let s = q + pre.len() + 2;
    let ps = r.rdata();
    let rd = encode_pieces(ps, e.1, s, false);
    match r {
        DnsRecord::NS { host, .. } => {
            assert(ps.drop_last() =~= Seq::<Piece>::empty());
            assert(ps.last() == Piece::Name(host));
            let he = encode_name(host@, m0, s, false);
            assert(encode_pieces(Seq::<Piece>::empty(), e.1, s, false).0 =~= Seq::<u8>::empty());
            assert(rd.0 =~= Seq::<u8>::empty() + he.0);
            lemma_record_head(domain, 2, v.ttl(), rd.0, q, d);
            lemma_name_round_trip(host@, m0, s, false, d);
        },
        _ => {},
    }
}

#[verifier::rlimit(40)]
proof fn lemma_txt_round_trip(r: DnsRecord, q: int, d: Seq<u8>)
    requires
        r is TXT,
        r.names_valid(),
        no_trailing_dot(r@.domain()->Some_0),
        r.encode(Map::empty(), q, false).0.len() < 0x10000,
        0 <= q,
        q + r.encode(Map::empty(), q, false).0.len() <= d.len(),
        d.subrange(q, q + r.encode(Map::empty(), q, false).0.len()) == r.encode(Map::empty(), q, false).0,
    ensures
        decode_record(d, q) == Ok::<(RecordView, int), BufferError>(
            (RecordView::TXT { domain: lower_chars(r@.domain()->Some_0), data: r@->TXT_data, ttl: r@.ttl() }, q + r.encode(Map::empty(), q, false).0.len()),
        ),
{
    reveal(DnsRecord::encode);
    let v = r@;
    let domain = v.domain()->Some_0;
    let m0 = Map::<Seq<char>, usize>::empty();
    let e = encode_name(domain, m0, q, false);
    lemma_no_remember(domain, 0, m0, q);
    let pre = e.0 + u16_bytes(v.query_type().code() as int) + u16_bytes(1) + u32_bytes(v.ttl() as int);
    let s = q + pre.len() + 2;
    let ps = r.rdata();
    let rd = encode_pieces(ps, e.1, s, false);
    match r {
        DnsRecord::TXT { data, .. } => {
            assert(ps.drop_last() =~= Seq::<Piece>::empty());
            assert(ps.last() == Piece::Text(data));
            assert(encode_pieces(Seq::<Piece>::empty(), e.1, s, false).0 =~= Seq::<u8>::empty());
            assert(rd.0 =~= encode_utf8(data@));
            lemma_record_head(domain, 16, v.ttl(), rd.0, q, d);
            encode_utf8_valid_utf8(data@);
            encode_utf8_decode_utf8(data@);
        },
        _ => {},
    }
}

#[verifier::rlimit(40)]
proof fn lemma_cname_round_trip(r: DnsRecord, q: int, d: Seq<u8>)
    requires
        r is CNAME,
        no_trailing_dot(r@->CNAME_host),
        r.names_valid(),
        no_trailing_dot(r@.domain()->Some_0),
        r.encode(Map::empty(), q, false).0.len() < 0x10000,
        0 <= q,
        q + r.encode(Map::empty(), q, false).0.len() <= d.len(),
        d.subrange(q, q + r.encode(Map::empty(), q, false).0.len()) == r.encode(Map::empty(), q, false).0,
    ensures
        decode_record(d, q) == Ok::<(RecordView, int), BufferError>(
            (RecordView::CNAME { domain: lower_chars(r@.domain()->Some_0), host: lower_chars(r@->CNAME_host), ttl: r@.ttl() }, q + r.encode(Map::empty(), q, false).0.len()),
        ),
{
    reveal(DnsRecord::encode);
    let v = r@;
    let domain = v.domain()->Some_0;
    let m0 = Map::<Seq<char>, usize>::empty();
    let e = encode_name(domain, m0, q, false);
    lemma_no_remember(domain, 0, m0, q);
    let pre = e.0 + u16_bytes(v.query_type().code() as int) + u16_bytes(1) + u32_bytes(v.ttl() as int);
    let s = q + pre.len() + 2;
    let ps = r.rdata();
    let rd = encode_pieces(ps, e.1, s, false);
    match r {
        DnsRecord::CNAME { host, .. } => {
            assert(ps.drop_last() =~= Seq::<Piece>::empty());
            assert(ps.last() == Piece::Name(host));
            let he = encode_name(host@, m0, s, false);
            assert(encode_pieces(Seq::<Piece>::empty(), e.1, s, false).0 =~= Seq::<u8>::empty());
            assert(rd.0 =~= Seq::<u8>::empty() + he.0);
            lemma_record_head(domain, 5, v.ttl(), rd.0, q, d);
            lemma_name_round_trip(host@, m0, s, false, d);
        },
        _ => {},
    }
}

#[verifier::rlimit(40)]
proof fn lemma_mx_round_trip(r: DnsRecord, q: int, d: Seq<u8>)
    requires
        r is MX,
        no_trailing_dot(r@->MX_host),
        r.names_valid(),
        no_trailing_dot(r@.domain()->Some_0),
        r.encode(Map::empty(), q, false).0.len() < 0x10000,
        0 <= q,
        q + r.encode(Map::empty(), q, false).0.len() <= d.len(),
        d.subrange(q, q + r.encode(Map::empty(), q, false).0.len()) == r.encode(Map::empty(), q, false).0,
    ensures
        decode_record(d, q) == Ok::<(RecordView, int), BufferError>(
            (RecordView::MX { domain: lower_chars(r@.domain()->Some_0), priority: r@->MX_priority, host: lower_chars(r@->MX_host), ttl: r@.ttl() }, q + r.encode(Map::empty(), q, false).0.len()),
        ),
{
    reveal(DnsRecord::encode);
    let v = r@;
    let domain = v.domain()->Some_0;
    let m0 = Map::<Seq<char>, usize>::empty();
    let e = encode_name(domain, m0, q, false);
    lemma_no_remember(domain, 0, m0, q);
    let pre = e.0 + u16_bytes(v.query_type().code() as int) + u16_bytes(1) + u32_bytes(v.ttl() as int);
    let s = q + pre.len() + 2;
    let ps = r.rdata();
    let rd = encode_pieces(ps, e.1, s, false);
    match r {
        DnsRecord::MX { priority, host, .. } => {
            let p1 = seq![Piece::Word(priority)];
            assert(ps.drop_last() =~= p1);
            assert(ps.last() == Piece::Name(host));
            assert(p1.drop_last() =~= Seq::<Piece>::empty());
            assert(encode_pieces(Seq::<Piece>::empty(), e.1, s, false).0 =~= Seq::<u8>::empty());
            assert(encode_pieces(p1, e.1, s, false).0 =~= u16_bytes(priority as int));
            let he = encode_name(host@, m0, s + 2, false);
            assert(rd.0 =~= u16_bytes(priority as int) + he.0);
            lemma_record_head(domain, 15, v.ttl(), rd.0, q, d);
            assert(d.subrange(s, s + 2) =~= u16_bytes(priority as int)) by {
                assert(d[s] == rd.0[0]);
                assert(d[s + 1] == rd.0[1]);
            }
            lemma_u16_octets(d, s, priority as int);
            assert(d.subrange(s + 2, s + 2 + he.0.len()) =~= he.0) by {
                assert forall|i: int| 0 <= i < he.0.len() implies d.subrange(s + 2, s + 2 + he.0.len())[i] == he.0[i] by {
                    assert(d[s + 2 + i] == rd.0[2 + i]);
                }
            }
            lemma_name_round_trip(host@, m0, s + 2, false, d);
        },
        _ => {},
    }
}

/// A record's value with its names lowercased, as decoding gives it back.
pub open spec fn lowered(v: RecordView) -> RecordView {
    match v {
        RecordView::A { domain, addr, ttl } => RecordView::A { domain: lower_chars(domain), addr, ttl },
        RecordView::AAAA { domain, addr, ttl } => RecordView::AAAA { domain: lower_chars(domain), addr, ttl },
        RecordView::NS { domain, host, ttl } => RecordView::NS {
            domain: lower_chars(domain),
            host: lower_chars(host),
            ttl,
        },
        RecordView::CNAME { domain, host, ttl } => RecordView::CNAME {
            domain: lower_chars(domain),
            host: lower_chars(host),
            ttl,
        },
        RecordView::MX { domain, priority, host, ttl } => RecordView::MX {
            domain: lower_chars(domain),
            priority,
            host: lower_chars(host),
            ttl,
        },
        RecordView::SRV { domain, priority, weight, port, host, ttl } => RecordView::SRV {
            domain: lower_chars(domain),
            priority,
            weight,
            port,
            host: lower_chars(host),
            ttl,
        },
        RecordView::SOA { domain, m_name, r_name, serial, refresh, retry, expire, minimum, ttl } => RecordView::SOA {
            domain: lower_chars(domain),
            m_name: lower_chars(m_name),
            r_name: lower_chars(r_name),
            serial,
            refresh,
            retry,
            expire,
            minimum,
            ttl,
        },
        RecordView::TXT { domain, data, ttl } => RecordView::TXT { domain: lower_chars(domain), data, ttl },
        _ => v,
    }
}

/// Whether a record makes the round trip through a buffer that records no
/// suffixes: a record of a type that is written (any but OPT and unknown
/// types) with valid names without a trailing dot, shorter than 2^16 octets.
pub open spec fn record_round_trips(r: DnsRecord) -> bool {
    &&& r.is_emitted()
    &&& r.names_valid()
    &&& no_trailing_dot(r@.domain()->Some_0)
    &&& r is NS ==> no_trailing_dot(r@->NS_host)
    &&& r is CNAME ==> no_trailing_dot(r@->CNAME_host)
    &&& r is MX ==> no_trailing_dot(r@->MX_host)
    &&& r is SRV ==> no_trailing_dot(r@->SRV_host)
    &&& r is SOA ==> no_trailing_dot(r@->SOA_m_name) && no_trailing_dot(r@->SOA_r_name)
    &&& forall|p: int| #[trigger] r.encode(Map::empty(), p, false).0.len() < 0x10000
}

/// Codec round trip for one record: a record that makes the round trip,
/// written where no suffix is recorded, reads back as the same record with
/// its names lowercased, the cursor ending right after it.
pub proof fn lemma_record_round_trip(r: DnsRecord, q: int, d: Seq<u8>)
    requires
        record_round_trips(r),
        0 <= q,
        q + r.encode(Map::empty(), q, false).0.len() <= d.len(),
        d.subrange(q, q + r.encode(Map::empty(), q, false).0.len()) == r.encode(Map::empty(), q, false).0,
    ensures
        decode_record(d, q) == Ok::<(RecordView, int), BufferError>(
            (lowered(r@), q + r.encode(Map::empty(), q, false).0.len()),
        ),
{
    assert(r.encode(Map::empty(), q, false).0.len() < 0x10000);
    if r is A {
        lemma_a_round_trip(r, q, d);
    } else if r is AAAA {
        lemma_aaaa_round_trip(r, q, d);
    } else if r is NS {
        lemma_ns_round_trip(r, q, d);
    } else if r is CNAME {
        lemma_cname_round_trip(r, q, d);
    } else if r is MX {
        lemma_mx_round_trip(r, q, d);
    } else if r is SRV {
        lemma_srv_round_trip(r, q, d);
    } else if r is SOA {
        lemma_soa_round_trip(r, q, d);
    } else {
        lemma_txt_round_trip(r, q, d);
    }
}

proof fn lemma_pieces_no_remember(ps: Seq<Piece>, m: Map<Seq<char>, usize>, q: int)
    ensures
        encode_pieces(ps, m, q, false).1 == m,
    decreases ps.len(),
{
    if ps.len() > 0 {
        lemma_pieces_no_remember(ps.drop_last(), m, q);
        let a = encode_pieces(ps.drop_last(), m, q, false);
        if let Piece::Name(n) = ps.last() {
            lemma_no_remember(n@, 0, m, q + a.0.len());
        }
    }
}

proof fn lemma_record_no_remember(r: DnsRecord, m: Map<Seq<char>, usize>, q: int)
    ensures
        r.encode(m, q, false).1 == m,
{
    reveal(DnsRecord::encode);
    if r.is_emitted() {
        let domain = r@.domain()->Some_0;
        lemma_no_remember(domain, 0, m, q);
        let e = encode_name(domain, m, q, false);
        let pre = e.0 + u16_bytes(r@.query_type().code() as int) + u16_bytes(1) + u32_bytes(r@.ttl() as int);
        lemma_pieces_no_remember(r.rdata(), e.1, q + pre.len() + 2);
    }
}

proof fn lemma_records_no_remember(rs: Seq<DnsRecord>, m: Map<Seq<char>, usize>, q: int)
    ensures
        encode_records(rs, m, q, false).1 == m,
    decreases rs.len(),
{
    if rs.len() > 0 {
        lemma_records_no_remember(rs.drop_last(), m, q);
        let a = encode_records(rs.drop_last(), m, q, false);
        lemma_record_no_remember(rs.last(), m, q + a.0.len());
    }
}

proof fn lemma_records_cons(x: DnsRecord, rest: Seq<DnsRecord>, m: Map<Seq<char>, usize>, q: int)
    ensures
        encode_records(seq![x] + rest, m, q, false) == (
            x.encode(m, q, false).0 + encode_records(rest, m, q + x.encode(m, q, false).0.len(), false).0,
            m,
        ),
    decreases rest.len(),
{
    let all = seq![x] + rest;
    let ex = x.encode(m, q, false).0;
    lemma_record_no_remember(x, m, q);
    lemma_records_no_remember(all, m, q);
    let a = encode_records(all.drop_last(), m, q, false);
    if rest.len() == 0 {
        assert(all.drop_last() =~= Seq::<DnsRecord>::empty());
        assert(a == (Seq::<u8>::empty(), m));
        assert(all.last() == x);
        assert(encode_records(rest, m, q + ex.len(), false) == (Seq::<u8>::empty(), m));
        assert(encode_records(all, m, q, false).0 == a.0 + x.encode(a.1, q + a.0.len(), false).0);
        assert(encode_records(all, m, q, false).0 =~= ex + Seq::<u8>::empty());
    } else {
        assert(all.drop_last() =~= seq![x] + rest.drop_last());
        assert(all.last() == rest.last());
        lemma_records_cons(x, rest.drop_last(), m, q);
        let r2 = encode_records(rest.drop_last(), m, q + ex.len(), false);
        lemma_records_no_remember(rest.drop_last(), m, q + ex.len());
        assert(a == (ex + r2.0, m));
        assert(encode_records(rest, m, q + ex.len(), false).0 == r2.0 + rest.last().encode(
            m,
            q + ex.len() + r2.0.len(),
            false,
        ).0);
        assert(encode_records(all, m, q, false).0 == a.0 + rest.last().encode(m, q + a.0.len(), false).0);
        assert(encode_records(all, m, q, false).0 =~= ex + encode_records(rest, m, q + ex.len(), false).0);
    }
}

/// Consecutive records that make the round trip, written where no suffix
/// is recorded, read back in order with their names lowercased.
proof fn lemma_records_round_trip(rs: Seq<DnsRecord>, q: int, d: Seq<u8>)
    requires
        forall|i: int| 0 <= i < rs.len() ==> record_round_trips(#[trigger] rs[i]),
        0 <= q,
        q + encode_records(rs, Map::empty(), q, false).0.len() <= d.len(),
        d.subrange(q, q + encode_records(rs, Map::empty(), q, false).0.len()) == encode_records(rs, Map::empty(), q, false).0,
    ensures
        decode_records(d, q, rs.len()) == Ok::<(Seq<RecordView>, int), BufferError>(
            (record_views(rs).map_values(|v: RecordView| lowered(v)), q + encode_records(rs, Map::empty(), q, false).0.len()),
        ),
    decreases rs.len(),
{
    let m0 = Map::<Seq<char>, usize>::empty();
    if rs.len() == 0 {
        assert(record_views(rs).map_values(|v: RecordView| lowered(v)) =~= Seq::<RecordView>::empty());
    } else {
        let x = rs[0];
        let rest = rs.drop_first();
        assert(rs =~= seq![x] + rest);
        lemma_records_cons(x, rest, m0, q);
        let ex = x.encode(m0, q, false).0;
        let er = encode_records(rest, m0, q + ex.len(), false).0;
        let enc = encode_records(rs, m0, q, false).0;
        assert(enc == ex + er);
        assert(d.subrange(q, q + ex.len()) =~= ex) by {
            assert forall|i: int| 0 <= i < ex.len() implies d.subrange(q, q + ex.len())[i] == ex[i] by {
                assert(d[q + i] == enc[i]);
            }
        }
        lemma_record_round_trip(x, q, d);
        assert(d.subrange(q + ex.len(), q + ex.len() + er.len()) =~= er) by {
            assert forall|i: int| 0 <= i < er.len() implies d.subrange(q + ex.len(), q + ex.len() + er.len())[i] == er[i] by {
                assert(d[q + ex.len() + i] == enc[ex.len() + i]);
            }
        }
        assert forall|i: int| 0 <= i < rest.len() implies record_round_trips(#[trigger] rest[i]) by {
            assert(rest[i] == rs[i + 1]);
        }
        lemma_records_round_trip(rest, q + ex.len(), d);
        assert(record_views(rs).map_values(|v: RecordView| lowered(v)) =~= seq![lowered(x@)]
            + record_views(rest).map_values(|v: RecordView| lowered(v)));
    }
}


/// A slice of `d` holding `a + b` holds `a`, then `b`.
proof fn lemma_split_at(d: Seq<u8>, q: int, a: Seq<u8>, b: Seq<u8>)
    requires
        0 <= q,
        q + a.len() + b.len() <= d.len(),
        d.subrange(q, q + a.len() + b.len()) == a + b,
    ensures
        d.subrange(q, q + a.len()) == a,
        d.subrange(q + a.len(), q + a.len() + b.len()) == b,
{
    assert forall|i: int| 0 <= i < a.len() implies d.subrange(q, q + a.len())[i] == a[i] by {
        assert(d[q + i] == (a + b)[i]);
    }
    assert forall|i: int| 0 <= i < b.len() implies d.subrange(q + a.len(), q + a.len() + b.len())[i] == b[i] by {
        assert(d[q + a.len() + i] == (a + b)[a.len() + i]);
    }
    assert(d.subrange(q, q + a.len()) =~= a);
    assert(d.subrange(q + a.len(), q + a.len() + b.len()) =~= b);
}

proof fn lemma_records_append(xs: Seq<DnsRecord>, ys: Seq<DnsRecord>, m: Map<Seq<char>, usize>, q: int)
    ensures
        encode_records(xs + ys, m, q, false).0 == encode_records(xs, m, q, false).0 + encode_records(
            ys,
            m,
            q + encode_records(xs, m, q, false).0.len(),
            false,
        ).0,
    decreases ys.len(),
{
    let ex = encode_records(xs, m, q, false).0;
    if ys.len() == 0 {
        assert(xs + ys =~= xs);
        assert(ex + Seq::<u8>::empty() =~= ex);
    } else {
        assert((xs + ys).drop_last() =~= xs + ys.drop_last());
        assert((xs + ys).last() == ys.last());
        lemma_records_append(xs, ys.drop_last(), m, q);
        lemma_records_no_remember(xs + ys.drop_last(), m, q);
        lemma_records_no_remember(ys.drop_last(), m, q + ex.len());
        let r2 = encode_records(ys.drop_last(), m, q + ex.len(), false).0;
        assert(encode_records(xs + ys, m, q, false).0 =~= ex + (r2 + ys.last().encode(m, q + ex.len() + r2.len(), false).0));
    }
}

/// Whether a question makes the round trip through a buffer that records
/// no suffixes: a valid name without a trailing dot and a type that its
/// code names.
pub open spec fn question_round_trips(qn: DnsQuestion) -> bool {
    &&& valid_name(qn.name@)
    &&& no_trailing_dot(qn.name@)
    &&& qn.qtype == QueryType::of_code(qn.qtype.code())
}

proof fn lemma_question_no_remember(qn: DnsQuestion, m: Map<Seq<char>, usize>, q: int)
    ensures
        encode_question(qn.name@, qn.qtype, m, q, false).1 == m,
{
    lemma_no_remember(qn.name@, 0, m, q);
}

proof fn lemma_questions_no_remember(qs: Seq<DnsQuestion>, m: Map<Seq<char>, usize>, q: int)
    ensures
        encode_questions(qs, m, q, false).1 == m,
    decreases qs.len(),
{
    if qs.len() > 0 {
        lemma_questions_no_remember(qs.drop_last(), m, q);
        let a = encode_questions(qs.drop_last(), m, q, false);
        lemma_question_no_remember(qs.last(), m, q + a.0.len());
    }
}

proof fn lemma_questions_cons(x: DnsQuestion, rest: Seq<DnsQuestion>, m: Map<Seq<char>, usize>, q: int)
    ensures
        encode_questions(seq![x] + rest, m, q, false).0 == encode_question(x.name@, x.qtype, m, q, false).0
            + encode_questions(
            rest,
            m,
            q + encode_question(x.name@, x.qtype, m, q, false).0.len(),
            false,
        ).0,
    decreases rest.len(),
{
    let all = seq![x] + rest;
    let ex = encode_question(x.name@, x.qtype, m, q, false).0;
    lemma_question_no_remember(x, m, q);
    let a = encode_questions(all.drop_last(), m, q, false);
    if rest.len() == 0 {
        assert(all.drop_last() =~= Seq::<DnsQuestion>::empty());
        assert(a == (Seq::<u8>::empty(), m));
        assert(all.last() == x);
        assert(encode_questions(rest, m, q + ex.len(), false) == (Seq::<u8>::empty(), m));
        assert(encode_questions(all, m, q, false).0 =~= ex + Seq::<u8>::empty());
    } else {
        assert(all.drop_last() =~= seq![x] + rest.drop_last());
        assert(all.last() == rest.last());
        lemma_questions_cons(x, rest.drop_last(), m, q);
        lemma_questions_no_remember(seq![x] + rest.drop_last(), m, q);
        let r2 = encode_questions(rest.drop_last(), m, q + ex.len(), false);
        lemma_questions_no_remember(rest.drop_last(), m, q + ex.len());
        assert(a == (ex + r2.0, m));
        assert(encode_questions(all, m, q, false).0 =~= ex + encode_questions(rest, m, q + ex.len(), false).0);
    }
}

/// The value a question reads back as: its name lowercased, its type.
pub open spec fn lowered_question(qn: DnsQuestion) -> (Seq<char>, QueryType) {
    (lower_chars(qn.name@), qn.qtype)
}

proof fn lemma_questions_round_trip(qs: Seq<DnsQuestion>, q: int, d: Seq<u8>)
    requires
        forall|i: int| 0 <= i < qs.len() ==> question_round_trips(#[trigger] qs[i]),
        0 <= q,
        q + encode_questions(qs, Map::empty(), q, false).0.len() <= d.len(),
        d.subrange(q, q + encode_questions(qs, Map::empty(), q, false).0.len()) == encode_questions(qs, Map::empty(), q, false).0,
    ensures
        decode_questions(d, q, qs.len()) == Ok::<(Seq<(Seq<char>, QueryType)>, int), BufferError>(
            (qs.map_values(|qn: DnsQuestion| lowered_question(qn)), q + encode_questions(qs, Map::empty(), q, false).0.len()),
        ),
    decreases qs.len(),
{
    let m0 = Map::<Seq<char>, usize>::empty();
    if qs.len() == 0 {
        assert(qs.map_values(|qn: DnsQuestion| lowered_question(qn)) =~= Seq::<(Seq<char>, QueryType)>::empty());
    } else {
        let x = qs[0];
        let rest = qs.drop_first();
        assert(qs =~= seq![x] + rest);
        lemma_questions_cons(x, rest, m0, q);
        let ne = encode_name(x.name@, m0, q, false).0;
        let ex = encode_question(x.name@, x.qtype, m0, q, false).0;
        let er = encode_questions(rest, m0, q + ex.len(), false).0;
        assert(ex == ne + (u16_bytes(x.qtype.code() as int) + u16_bytes(1)));
        lemma_split_at(d, q, ex, er);
        lemma_split_at(d, q, ne, u16_bytes(x.qtype.code() as int) + u16_bytes(1));
        assert(question_round_trips(x));
        lemma_name_round_trip(x.name@, m0, q, false, d);
        lemma_split_at(d, q + ne.len(), u16_bytes(x.qtype.code() as int), u16_bytes(1));
        lemma_u16_octets(d, q + ne.len(), x.qtype.code() as int);
        assert forall|i: int| 0 <= i < rest.len() implies question_round_trips(#[trigger] rest[i]) by {
            assert(rest[i] == qs[i + 1]);
        }
        lemma_questions_round_trip(rest, q + ex.len(), d);
        assert(qs.map_values(|qn: DnsQuestion| lowered_question(qn)) =~= seq![lowered_question(x)]
            + rest.map_values(|qn: DnsQuestion| lowered_question(qn)));
    }
}

proof fn lemma_all_emitted(rs: Seq<DnsRecord>)
    requires
        forall|i: int| 0 <= i < rs.len() ==> (#[trigger] rs[i]).is_emitted(),
    ensures
        emitted_count(rs) == rs.len(),
    decreases rs.len(),
{
    if rs.len() > 0 {
        assert forall|i: int| 0 <= i < rs.drop_last().len() implies (#[trigger] rs.drop_last()[i]).is_emitted() by {
            assert(rs.drop_last()[i] == rs[i]);
        }
        lemma_all_emitted(rs.drop_last());
        assert(rs.last() == rs[rs.len() - 1]);
    }
}


proof fn lemma_full_counts(p: DnsPacket)
    requires
        p.questions@.len() <= 0xFFFF,
        p.answers@.len() <= 0xFFFF,
        p.authorities@.len() <= 0xFFFF,
        p.resources@.len() <= 0xFFFF,
        forall|i: int| 0 <= i < p.records().len() ==> record_round_trips(#[trigger] p.records()[i]),
    ensures
        ({
            let h = p.emitted_header(p.records().len() as int);
            &&& h.questions == p.questions@.len()
            &&& h.answers == p.answers@.len()
            &&& h.authoritative_entries == p.authorities@.len()
            &&& h.resource_entries == p.resources@.len()
            &&& h.opcode == p.header.opcode
            &&& h.rescode == p.header.rescode
        }),
{
    let ans = p.answers@;
    let auth = p.authorities@;
    let res = p.resources@;
    assert forall|i: int| 0 <= i < ans.len() implies (#[trigger] ans[i]).is_emitted() by {
        assert(p.records()[i] == ans[i]);
        assert(record_round_trips(p.records()[i]));
    }
    assert forall|i: int| 0 <= i < auth.len() implies (#[trigger] auth[i]).is_emitted() by {
        assert(p.records()[ans.len() + i] == auth[i]);
        assert(record_round_trips(p.records()[ans.len() + i]));
    }
    assert forall|i: int| 0 <= i < res.len() implies (#[trigger] res[i]).is_emitted() by {
        assert(p.records()[ans.len() + auth.len() + i] == res[i]);
        assert(record_round_trips(p.records()[ans.len() + auth.len() + i]));
    }
    assert(ans.subrange(0, ans.len() as int) =~= ans);
    assert(auth.subrange(0, auth.len() as int) =~= auth);
    assert(res.subrange(0, res.len() as int) =~= res);
    lemma_all_emitted(ans);
    lemma_all_emitted(auth);
    lemma_all_emitted(res);
}

proof fn lemma_sections_round_trip(p: DnsPacket, qa: int, d: Seq<u8>)
    requires
        forall|i: int| 0 <= i < p.records().len() ==> record_round_trips(#[trigger] p.records()[i]),
        0 <= qa,
        qa + encode_records(p.records(), Map::empty(), qa, false).0.len() <= d.len(),
        d.subrange(qa, qa + encode_records(p.records(), Map::empty(), qa, false).0.len()) == encode_records(
            p.records(),
            Map::empty(),
            qa,
            false,
        ).0,
    ensures
        ({
            let m0 = Map::<Seq<char>, usize>::empty();
            let ea = encode_records(p.answers@, m0, qa, false).0;
            let eu = encode_records(p.authorities@, m0, qa + ea.len(), false).0;
            let er = encode_records(p.resources@, m0, qa + ea.len() + eu.len(), false).0;
            &&& encode_records(p.records(), m0, qa, false).0.len() == ea.len() + eu.len() + er.len()
            &&& decode_records(d, qa, p.answers@.len()) == Ok::<(Seq<RecordView>, int), BufferError>(
                (record_views(p.answers@).map_values(|v: RecordView| lowered(v)), qa + ea.len()),
            )
            &&& decode_records(d, qa + ea.len(), p.authorities@.len()) == Ok::<(Seq<RecordView>, int), BufferError>(
                (record_views(p.authorities@).map_values(|v: RecordView| lowered(v)), qa + ea.len() + eu.len()),
            )
            &&& decode_records(d, qa + ea.len() + eu.len(), p.resources@.len()) == Ok::<
                (Seq<RecordView>, int),
                BufferError,
            >(
                (
                    record_views(p.resources@).map_values(|v: RecordView| lowered(v)),
                    qa + ea.len() + eu.len() + er.len(),
                ),
            )
        }),
{
    let m0 = Map::<Seq<char>, usize>::empty();
    let ans = p.answers@;
    let auth = p.authorities@;
    let res = p.resources@;
    let ea = encode_records(ans, m0, qa, false).0;
    let eu = encode_records(auth, m0, qa + ea.len(), false).0;
    let er = encode_records(res, m0, qa + ea.len() + eu.len(), false).0;
    lemma_records_append(ans, auth, m0, qa);
    lemma_records_append(ans + auth, res, m0, qa);
    assert(p.records() == ans + auth + res);
    let all = encode_records(p.records(), m0, qa, false).0;
    assert(all =~= ea + eu + er);
    lemma_split_at(d, qa, ea + eu, er);
    lemma_split_at(d, qa, ea, eu);
    assert forall|i: int| 0 <= i < ans.len() implies record_round_trips(#[trigger] ans[i]) by {
        assert(p.records()[i] == ans[i]);
    }
    assert forall|i: int| 0 <= i < auth.len() implies record_round_trips(#[trigger] auth[i]) by {
        assert(p.records()[ans.len() + i] == auth[i]);
    }
    assert forall|i: int| 0 <= i < res.len() implies record_round_trips(#[trigger] res[i]) by {
        assert(p.records()[ans.len() + auth.len() + i] == res[i]);
    }
    lemma_records_round_trip(ans, qa, d);
    lemma_records_round_trip(auth, qa + ea.len(), d);
    lemma_records_round_trip(res, qa + ea.len() + eu.len(), d);
}

/// Codec round trip: a packet whose header has a 4-bit opcode and a
/// canonical result code, and whose questions and records make the round
/// trip, written in full (no record left out) where no suffix is recorded,
/// as the UDP encoder writes, decodes to the header written and the same
/// questions and records, names lowercased; the cursor ends right after it.
#[verifier::rlimit(100)]
pub proof fn lemma_packet_round_trip(p: DnsPacket, q: int, d: Seq<u8>)
    requires
        p.header.opcode < 16,
        p.header.rescode.code() < 16,
        p.header.rescode == ResultCode::of_code(p.header.rescode.code()),
        p.questions@.len() <= 0xFFFF,
        p.answers@.len() <= 0xFFFF,
        p.authorities@.len() <= 0xFFFF,
        p.resources@.len() <= 0xFFFF,
        forall|i: int| 0 <= i < p.questions@.len() ==> question_round_trips(#[trigger] p.questions@[i]),
        forall|i: int| 0 <= i < p.records().len() ==> record_round_trips(#[trigger] p.records()[i]),
        0 <= q,
        q + encode_message(p.emitted_header(p.records().len() as int), p.questions@, p.records(), Map::empty(), q, false).0.len() <= d.len(),
        d.subrange(
            q,
            q + encode_message(p.emitted_header(p.records().len() as int), p.questions@, p.records(), Map::empty(), q, false).0.len(),
        ) == encode_message(p.emitted_header(p.records().len() as int), p.questions@, p.records(), Map::empty(), q, false).0,
    ensures
        decode_packet(d, q) == Ok::<(PacketView, int), BufferError>(
            (
                PacketView {
                    header: p.emitted_header(p.records().len() as int),
                    questions: p.questions@.map_values(|qn: DnsQuestion| lowered_question(qn)),
                    answers: record_views(p.answers@).map_values(|v: RecordView| lowered(v)),
                    authorities: record_views(p.authorities@).map_values(|v: RecordView| lowered(v)),
                    resources: record_views(p.resources@).map_values(|v: RecordView| lowered(v)),
                },
                q + encode_message(p.emitted_header(p.records().len() as int), p.questions@, p.records(), Map::empty(), q, false).0.len(),
            ),
        ),
{
    let m0 = Map::<Seq<char>, usize>::empty();
    let h = p.emitted_header(p.records().len() as int);
    lemma_full_counts(p);
    let eq = encode_questions(p.questions@, m0, q + 12, false);
    lemma_questions_no_remember(p.questions@, m0, q + 12);
    let qa = q + 12 + eq.0.len();
    let all = encode_records(p.records(), m0, qa, false).0;
    let enc = encode_message(h, p.questions@, p.records(), m0, q, false).0;
    assert(enc == h.wire() + eq.0 + all);
    assert(enc =~= h.wire() + (eq.0 + all));
    lemma_split_at(d, q, h.wire(), eq.0 + all);
    lemma_header_round_trip(h, d, q);
    lemma_split_at(d, q + 12, eq.0, all);
    lemma_questions_round_trip(p.questions@, q + 12, d);
    lemma_sections_round_trip(p, qa, d);
}

proof fn lemma_pieces_push(ps: Seq<Piece>, x: Piece, m: Map<Seq<char>, usize>, q: int)
    ensures
        encode_pieces(ps.push(x), m, q, false).0 == encode_pieces(ps, m, q, false).0 + encode_piece(
            x,
            m,
            q + encode_pieces(ps, m, q, false).0.len(),
            false,
        ).0,
{
    lemma_pieces_no_remember(ps, m, q);
    assert(ps.push(x).drop_last() =~= ps);
    assert(ps.push(x).last() == x);
}

#[verifier::rlimit(60)]
proof fn lemma_srv_round_trip(r: DnsRecord, q: int, d: Seq<u8>)
    requires
        r is SRV,
        no_trailing_dot(r@->SRV_host),
        r.names_valid(),
        no_trailing_dot(r@.domain()->Some_0),
        r.encode(Map::empty(), q, false).0.len() < 0x10000,
        0 <= q,
        q + r.encode(Map::empty(), q, false).0.len() <= d.len(),
        d.subrange(q, q + r.encode(Map::empty(), q, false).0.len()) == r.encode(Map::empty(), q, false).0,
    ensures
        decode_record(d, q) == Ok::<(RecordView, int), BufferError>(
            (RecordView::SRV { domain: lower_chars(r@.domain()->Some_0), priority: r@->SRV_priority, weight: r@->SRV_weight, port: r@->SRV_port, host: lower_chars(r@->SRV_host), ttl: r@.ttl() }, q + r.encode(Map::empty(), q, false).0.len()),
        ),
{
    reveal(DnsRecord::encode);
    let v = r@;
    let domain = v.domain()->Some_0;
    let m0 = Map::<Seq<char>, usize>::empty();
    let e = encode_name(domain, m0, q, false);
    lemma_no_remember(domain, 0, m0, q);
    let pre = e.0 + u16_bytes(v.query_type().code() as int) + u16_bytes(1) + u32_bytes(v.ttl() as int);
    let s = q + pre.len() + 2;
    let ps = r.rdata();
    let rd = encode_pieces(ps, e.1, s, false);
    match r {
        DnsRecord::SRV { priority, weight, port, host, .. } => {
            let p0 = Seq::<Piece>::empty();
            let p1 = p0.push(Piece::Word(priority));
            let p2 = p1.push(Piece::Word(weight));
            let p3 = p2.push(Piece::Word(port));
            let p4 = p3.push(Piece::Name(host));
            assert(p4 =~= ps);
            lemma_pieces_push(p0, Piece::Word(priority), m0, s);
            lemma_pieces_push(p1, Piece::Word(weight), m0, s);
            lemma_pieces_push(p2, Piece::Word(port), m0, s);
            lemma_pieces_push(p3, Piece::Name(host), m0, s);
            assert(encode_pieces(p0, m0, s, false).0 =~= Seq::<u8>::empty());
            let he = encode_name(host@, m0, s + 6, false);
            let f = u16_bytes(priority as int) + u16_bytes(weight as int) + u16_bytes(port as int);
            assert(rd.0 =~= f + he.0);
            lemma_record_head(domain, 33, v.ttl(), rd.0, q, d);
            lemma_split_at(d, s, f, he.0);
            lemma_split_at(d, s, u16_bytes(priority as int) + u16_bytes(weight as int), u16_bytes(port as int));
            lemma_split_at(d, s, u16_bytes(priority as int), u16_bytes(weight as int));
            lemma_u16_octets(d, s, priority as int);
            lemma_u16_octets(d, s + 2, weight as int);
            lemma_u16_octets(d, s + 4, port as int);
            lemma_name_round_trip(host@, m0, s + 6, false, d);
        },
        _ => {},
    }
}

#[verifier::rlimit(60)]
proof fn lemma_soa_data(
    m_name: Seq<char>,
    r_name: Seq<char>,
    serial: u32,
    refresh: u32,
    retry: u32,
    expire: u32,
    minimum: u32,
    s: int,
    d: Seq<u8>,
)
    requires
        valid_name(m_name),
        valid_name(r_name),
        no_trailing_dot(m_name),
        no_trailing_dot(r_name),
        0 <= s,
        ({
            let m0 = Map::<Seq<char>, usize>::empty();
            let me = encode_name(m_name, m0, s, false).0;
            let re = encode_name(r_name, m0, s + me.len(), false).0;
            let c = u32_bytes(serial as int) + u32_bytes(refresh as int) + u32_bytes(retry as int)
                + u32_bytes(expire as int) + u32_bytes(minimum as int);
            &&& s + (me + re + c).len() <= d.len()
            &&& d.subrange(s, s + (me + re + c).len()) == me + re + c
        }),
    ensures
        ({
            let m0 = Map::<Seq<char>, usize>::empty();
            let me = encode_name(m_name, m0, s, false).0;
            let re = encode_name(r_name, m0, s + me.len(), false).0;
            let t = s + me.len() + re.len();
            &&& read_name(d, s) == Ok::<(Seq<char>, int), BufferError>((lower_chars(m_name), s + me.len()))
            &&& read_name(d, s + me.len()) == Ok::<(Seq<char>, int), BufferError>((lower_chars(r_name), t))
            &&& t + 20 <= d.len()
            &&& be32(d, t) == serial
            &&& be32(d, t + 4) == refresh
            &&& be32(d, t + 8) == retry
            &&& be32(d, t + 12) == expire
            &&& be32(d, t + 16) == minimum
        }),
{
    let m0 = Map::<Seq<char>, usize>::empty();
    let me = encode_name(m_name, m0, s, false).0;
    let re = encode_name(r_name, m0, s + me.len(), false).0;
    let c = u32_bytes(serial as int) + u32_bytes(refresh as int) + u32_bytes(retry as int)
        + u32_bytes(expire as int) + u32_bytes(minimum as int);
    lemma_split_at(d, s, me + re, c);
    lemma_split_at(d, s, me, re);
    lemma_name_round_trip(m_name, m0, s, false, d);
    lemma_name_round_trip(r_name, m0, s + me.len(), false, d);
    let t = s + me.len() + re.len();
    let c4 = u32_bytes(serial as int) + u32_bytes(refresh as int) + u32_bytes(retry as int) + u32_bytes(expire as int);
    let c3 = u32_bytes(serial as int) + u32_bytes(refresh as int) + u32_bytes(retry as int);
    let c2 = u32_bytes(serial as int) + u32_bytes(refresh as int);
    lemma_split_at(d, t, c4, u32_bytes(minimum as int));
    lemma_split_at(d, t, c3, u32_bytes(expire as int));
    lemma_split_at(d, t, c2, u32_bytes(retry as int));
    lemma_split_at(d, t, u32_bytes(serial as int), u32_bytes(refresh as int));
    lemma_u32_octets(d, t, serial as int);
    lemma_u32_octets(d, t + 4, refresh as int);
    lemma_u32_octets(d, t + 8, retry as int);
    lemma_u32_octets(d, t + 12, expire as int);
    lemma_u32_octets(d, t + 16, minimum as int);
}

proof fn lemma_soa_pieces(r: DnsRecord, s: int)
    requires
        r is SOA,
    ensures
        ({
            let m0 = Map::<Seq<char>, usize>::empty();
            let me = encode_name(r@->SOA_m_name, m0, s, false).0;
            let re = encode_name(r@->SOA_r_name, m0, s + me.len(), false).0;
            encode_pieces(r.rdata(), m0, s, false).0 == me + re + (u32_bytes(r@->SOA_serial as int)
                + u32_bytes(r@->SOA_refresh as int) + u32_bytes(r@->SOA_retry as int) + u32_bytes(
                r@->SOA_expire as int,
            ) + u32_bytes(r@->SOA_minimum as int))
        }),
{
    let m0 = Map::<Seq<char>, usize>::empty();
    let ps = r.rdata();
    match r {
        DnsRecord::SOA { m_name, r_name, serial, refresh, retry, expire, minimum, .. } => {
            let p0 = Seq::<Piece>::empty();
            let p1 = p0.push(Piece::Name(m_name));
            let p2 = p1.push(Piece::Name(r_name));
            let p3 = p2.push(Piece::Long(serial));
            let p4 = p3.push(Piece::Long(refresh));
            let p5 = p4.push(Piece::Long(retry));
            let p6 = p5.push(Piece::Long(expire));
            let p7 = p6.push(Piece::Long(minimum));
            assert(p7 =~= ps);
            assert(encode_pieces(p0, m0, s, false).0 =~= Seq::<u8>::empty());
            lemma_pieces_push(p0, Piece::Name(m_name), m0, s);
            let me = encode_name(m_name@, m0, s, false);
            assert(encode_pieces(p1, m0, s, false).0 =~= me.0);
            lemma_pieces_push(p1, Piece::Name(r_name), m0, s);
            lemma_pieces_push(p2, Piece::Long(serial), m0, s);
            lemma_pieces_push(p3, Piece::Long(refresh), m0, s);
            lemma_pieces_push(p4, Piece::Long(retry), m0, s);
            lemma_pieces_push(p5, Piece::Long(expire), m0, s);
            lemma_pieces_push(p6, Piece::Long(minimum), m0, s);
            let re = encode_name(r_name@, m0, s + me.0.len(), false);
            let c = u32_bytes(serial as int) + u32_bytes(refresh as int) + u32_bytes(retry as int)
                + u32_bytes(expire as int) + u32_bytes(minimum as int);
            assert(encode_pieces(ps, m0, s, false).0 =~= me.0 + re.0 + c);
        },
        _ => {},
    }
}

/// The octets of eight 16-bit segments, big-endian.
pub open spec fn segment_bytes(a: Seq<u16>) -> Seq<u8> {
    Seq::new(16, |j: int| if j % 2 == 0 { (a[j / 2] / 256) as u8 } else { (a[j / 2] % 256) as u8 })
}

proof fn lemma_aaaa_pieces(r: DnsRecord, s: int)
    requires
        r is AAAA,
    ensures
        encode_pieces(r.rdata(), Map::empty(), s, false).0 == segment_bytes(r@->AAAA_addr),
{
    let m0 = Map::<Seq<char>, usize>::empty();
    let ps = r.rdata();
    match r {
        DnsRecord::AAAA { addr, .. } => {
            let p0 = Seq::<Piece>::empty();
            let p1 = p0.push(Piece::Word(addr[0]));
            let p2 = p1.push(Piece::Word(addr[1]));
            let p3 = p2.push(Piece::Word(addr[2]));
            let p4 = p3.push(Piece::Word(addr[3]));
            let p5 = p4.push(Piece::Word(addr[4]));
            let p6 = p5.push(Piece::Word(addr[5]));
            let p7 = p6.push(Piece::Word(addr[6]));
            let p8 = p7.push(Piece::Word(addr[7]));
            assert(p8 =~= ps);
            assert(encode_pieces(p0, m0, s, false).0 =~= Seq::<u8>::empty());
            lemma_pieces_push(p0, Piece::Word(addr[0]), m0, s);
            lemma_pieces_push(p1, Piece::Word(addr[1]), m0, s);
            lemma_pieces_push(p2, Piece::Word(addr[2]), m0, s);
            lemma_pieces_push(p3, Piece::Word(addr[3]), m0, s);
            lemma_pieces_push(p4, Piece::Word(addr[4]), m0, s);
            lemma_pieces_push(p5, Piece::Word(addr[5]), m0, s);
            lemma_pieces_push(p6, Piece::Word(addr[6]), m0, s);
            lemma_pieces_push(p7, Piece::Word(addr[7]), m0, s);
            let w = u16_bytes(addr[0] as int) + u16_bytes(addr[1] as int) + u16_bytes(addr[2] as int)
                + u16_bytes(addr[3] as int) + u16_bytes(addr[4] as int) + u16_bytes(addr[5] as int)
                + u16_bytes(addr[6] as int) + u16_bytes(addr[7] as int);
            assert(encode_pieces(ps, m0, s, false).0 =~= w);
            assert(w =~= segment_bytes(addr@));
        },
        _ => {},
    }
}

proof fn lemma_segments_read(a: Seq<u16>, s: int, d: Seq<u8>)
    requires
        a.len() == 8,
        0 <= s,
        s + 16 <= d.len(),
        d.subrange(s, s + 16) == segment_bytes(a),
    ensures
        Seq::new(8, |i: int| be16(d, s + 2 * i) as u16) == a,
{
    assert forall|i: int| 0 <= i < 8 implies be16(d, s + 2 * i) == #[trigger] a[i] by {
        assert(d[s + 2 * i] == segment_bytes(a)[2 * i]);
        assert(d[s + 2 * i + 1] == segment_bytes(a)[2 * i + 1]);
        assert((2 * i) / 2 == i);
        assert((2 * i + 1) / 2 == i);
        assert((2 * i) % 2 == 0);
        assert((2 * i + 1) % 2 == 1);
    }
    assert(Seq::new(8, |i: int| be16(d, s + 2 * i) as u16) =~= a);
}

#[verifier::rlimit(60)]
proof fn lemma_aaaa_round_trip(r: DnsRecord, q: int, d: Seq<u8>)
    requires
        r is AAAA,
        r.names_valid(),
        no_trailing_dot(r@.domain()->Some_0),
        r.encode(Map::empty(), q, false).0.len() < 0x10000,
        0 <= q,
        q + r.encode(Map::empty(), q, false).0.len() <= d.len(),
        d.subrange(q, q + r.encode(Map::empty(), q, false).0.len()) == r.encode(Map::empty(), q, false).0,
    ensures
        decode_record(d, q) == Ok::<(RecordView, int), BufferError>(
            (
                RecordView::AAAA { domain: lower_chars(r@.domain()->Some_0), addr: r@->AAAA_addr, ttl: r@.ttl() },
                q + r.encode(Map::empty(), q, false).0.len(),
            ),
        ),
{
    reveal(DnsRecord::encode);
    let v = r@;
    let domain = v.domain()->Some_0;
    let m0 = Map::<Seq<char>, usize>::empty();
    let e = encode_name(domain, m0, q, false);
    lemma_no_remember(domain, 0, m0, q);
    let pre = e.0 + u16_bytes(v.query_type().code() as int) + u16_bytes(1) + u32_bytes(v.ttl() as int);
    let s = q + pre.len() + 2;
    lemma_aaaa_pieces(r, s);
    let rd = encode_pieces(r.rdata(), e.1, s, false);
    lemma_record_head(domain, 28, v.ttl(), rd.0, q, d);
    lemma_segments_read(v->AAAA_addr, s, d);
}

#[verifier::rlimit(100)]
proof fn lemma_soa_round_trip(r: DnsRecord, q: int, d: Seq<u8>)
    requires
        r is SOA,
        no_trailing_dot(r@->SOA_m_name),
        no_trailing_dot(r@->SOA_r_name),
        r.names_valid(),
        no_trailing_dot(r@.domain()->Some_0),
        r.encode(Map::empty(), q, false).0.len() < 0x10000,
        0 <= q,
        q + r.encode(Map::empty(), q, false).0.len() <= d.len(),
        d.subrange(q, q + r.encode(Map::empty(), q, false).0.len()) == r.encode(Map::empty(), q, false).0,
    ensures
        decode_record(d, q) == Ok::<(RecordView, int), BufferError>(
            (RecordView::SOA { domain: lower_chars(r@.domain()->Some_0), m_name: lower_chars(r@->SOA_m_name), r_name: lower_chars(r@->SOA_r_name), serial: r@->SOA_serial, refresh: r@->SOA_refresh, retry: r@->SOA_retry, expire: r@->SOA_expire, minimum: r@->SOA_minimum, ttl: r@.ttl() }, q + r.encode(Map::empty(), q, false).0.len()),
        ),
{
    reveal(DnsRecord::encode);
    let v = r@;
    let domain = v.domain()->Some_0;
    let m0 = Map::<Seq<char>, usize>::empty();
    let e = encode_name(domain, m0, q, false);
    lemma_no_remember(domain, 0, m0, q);
    let pre = e.0 + u16_bytes(v.query_type().code() as int) + u16_bytes(1) + u32_bytes(v.ttl() as int);
    let s = q + pre.len() + 2;
    let ps = r.rdata();
    let rd = encode_pieces(ps, e.1, s, false);
    match r {
        DnsRecord::SOA { m_name, r_name, serial, refresh, retry, expire, minimum, .. } => {
            lemma_soa_pieces(r, s);
            lemma_record_head(domain, 6, v.ttl(), rd.0, q, d);
            lemma_soa_data(m_name@, r_name@, serial, refresh, retry, expire, minimum, s, d);
        },
        _ => {},
    }
}

} // verus!
