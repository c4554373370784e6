//! Resource records.

use crate::address::{Ipv4, Ipv6};
use crate::bytepacketbuffer::{BytePacketBuffer, BUFFER_SIZE};
use crate::error::{found, CodecError};
use crate::name::{
    lemma_name_round_trip, lemma_name_wire_len, name_at, name_error, name_wire, plain_name,
};
use crate::qtype::QueryType;
use crate::wire::{
    holds_at, lemma_holds_split, lemma_splice_nothing, lemma_splice_patch, lemma_splice_twice,
    lemma_u16_stands, lemma_u32_stands, octets16, octets32, splice, u16_at, u32_at,
};
use vstd::prelude::*;
use vstd::string::StringSliceAdditionalSpecFns;
use vstd::utf8::encode_utf8;

verus! {

/// One resource record.
#[derive(Debug, Clone, PartialEq, Eq, Hash, PartialOrd, Ord)]
#[allow(inconsistent_fields)]
pub enum DnsRecord {
    /// A record of a type that the library does not read: its data is passed
    /// over, and only its length is kept.
    UNKNOWN { domain: String, qtype: u16, data_len: u16, ttl: u32 },
    A { domain: String, addr: Ipv4, ttl: u32 },
    NS { domain: String, host: String, ttl: u32 },
    CNAME { domain: String, host: String, ttl: u32 },
    MX { domain: String, priority: u16, host: String, ttl: u32 },
    AAAA { domain: String, addr: Ipv6, ttl: u32 },
}

/// What a record holds, its names as text.
#[allow(inconsistent_fields)]
pub enum RecordView {
    UNKNOWN { domain: Seq<char>, qtype: u16, data_len: u16, ttl: u32 },
    A { domain: Seq<char>, addr: Ipv4, ttl: u32 },
    NS { domain: Seq<char>, host: Seq<char>, ttl: u32 },
    CNAME { domain: Seq<char>, host: Seq<char>, ttl: u32 },
    MX { domain: Seq<char>, priority: u16, host: Seq<char>, ttl: u32 },
    AAAA { domain: Seq<char>, addr: Ipv6, ttl: u32 },
}

impl View for DnsRecord {
    type V = RecordView;

    open spec fn view(&self) -> RecordView {
        match *self {
            DnsRecord::UNKNOWN { domain, qtype, data_len, ttl } => RecordView::UNKNOWN {
                domain: domain@,
                qtype,
                data_len,
                ttl,
            },
            DnsRecord::A { domain, addr, ttl } => RecordView::A { domain: domain@, addr, ttl },
            DnsRecord::NS { domain, host, ttl } => RecordView::NS {
                domain: domain@,
                host: host@,
                ttl,
            },
            DnsRecord::CNAME { domain, host, ttl } => RecordView::CNAME {
                domain: domain@,
                host: host@,
                ttl,
            },
            DnsRecord::MX { domain, priority, host, ttl } => RecordView::MX {
                domain: domain@,
                priority,
                host: host@,
                ttl,
            },
            DnsRecord::AAAA { domain, addr, ttl } => RecordView::AAAA {
                domain: domain@,
                addr,
                ttl,
            },
        }
    }
}

impl RecordView {
    /// The name that the record is about.
    pub open spec fn domain(self) -> Seq<char> {
        match self {
            RecordView::UNKNOWN { domain, .. } => domain,
            RecordView::A { domain, .. } => domain,
            RecordView::NS { domain, .. } => domain,
            RecordView::CNAME { domain, .. } => domain,
            RecordView::MX { domain, .. } => domain,
            RecordView::AAAA { domain, .. } => domain,
        }
    }

    /// The code of the record's type.
    pub open spec fn code(self) -> u16 {
        match self {
            RecordView::UNKNOWN { qtype, .. } => qtype,
            RecordView::A { .. } => QueryType::A.code(),
            RecordView::NS { .. } => QueryType::NS.code(),
            RecordView::CNAME { .. } => QueryType::CNAME.code(),
            RecordView::MX { .. } => QueryType::MX.code(),
            RecordView::AAAA { .. } => QueryType::AAAA.code(),
        }
    }

    /// For how many seconds the record may be kept.
    pub open spec fn ttl(self) -> u32 {
        match self {
            RecordView::UNKNOWN { ttl, .. } => ttl,
            RecordView::A { ttl, .. } => ttl,
            RecordView::NS { ttl, .. } => ttl,
            RecordView::CNAME { ttl, .. } => ttl,
            RecordView::MX { ttl, .. } => ttl,
            RecordView::AAAA { ttl, .. } => ttl,
        }
    }
}

/// An IPv4 address on the wire.
pub open spec fn ipv4_wire(addr: Ipv4) -> Seq<u8> {
    seq![addr.0, addr.1, addr.2, addr.3]
}

/// An IPv6 address on the wire.
pub open spec fn ipv6_wire(addr: Ipv6) -> Seq<u8> {
    octets16(addr.0) + octets16(addr.1) + octets16(addr.2) + octets16(addr.3) + octets16(addr.4)
        + octets16(addr.5) + octets16(addr.6) + octets16(addr.7)
}

/// What every written record starts with: its name, its type, the class IN
/// and its time to live.
pub open spec fn record_head(r: RecordView) -> Seq<u8> {
    name_wire(encode_utf8(r.domain())) + octets16(r.code()) + octets16(1) + octets32(r.ttl())
}

/// The data of a record on the wire; a record of unknown type has none.
pub open spec fn record_data(r: RecordView) -> Seq<u8> {
    match r {
        RecordView::UNKNOWN { .. } => Seq::empty(),
        RecordView::A { addr, .. } => ipv4_wire(addr),
        RecordView::NS { host, .. } => name_wire(encode_utf8(host)),
        RecordView::CNAME { host, .. } => name_wire(encode_utf8(host)),
        RecordView::MX { priority, host, .. } => octets16(priority) + name_wire(encode_utf8(host)),
        RecordView::AAAA { addr, .. } => ipv6_wire(addr),
    }
}

/// A record on the wire: its head, the length of its data, and its data. A
/// record of unknown type is not written at all.
pub open spec fn record_wire(r: RecordView) -> Seq<u8> {
    if r is UNKNOWN {
        Seq::empty()
    } else {
        record_head(r) + octets16(record_data(r).len() as u16) + record_data(r)
    }
}

/// Why the head of a record cannot be written at `at`, if it cannot.
pub open spec fn head_error(r: RecordView, at: int) -> Option<CodecError> {
    match name_error(encode_utf8(r.domain()), at) {
        Some(e) => Some(e),
        None => if at + encode_utf8(r.domain()).len() + 10 > BUFFER_SIZE {
            Some(CodecError::EndOfBuffer)
        } else {
            None
        },
    }
}

/// Why a record cannot be written at `at`, if it cannot: what decides is the
/// first of its parts that is too long or finds no room.
pub open spec fn record_error(r: RecordView, at: int) -> Option<CodecError> {
    let data_at = at + encode_utf8(r.domain()).len() + 12;
    match r {
        RecordView::UNKNOWN { .. } => None,
        RecordView::A { .. } => match head_error(r, at) {
            Some(e) => Some(e),
            None => if data_at + 4 > BUFFER_SIZE {
                Some(CodecError::EndOfBuffer)
            } else {
                None
            },
        },
        RecordView::AAAA { .. } => match head_error(r, at) {
            Some(e) => Some(e),
            None => if data_at + 16 > BUFFER_SIZE {
                Some(CodecError::EndOfBuffer)
            } else {
                None
            },
        },
        RecordView::NS { host, .. } => match head_error(r, at) {
            Some(e) => Some(e),
            None => if data_at > BUFFER_SIZE {
                Some(CodecError::EndOfBuffer)
            } else {
                name_error(encode_utf8(host), data_at)
            },
        },
        RecordView::CNAME { host, .. } => match head_error(r, at) {
            Some(e) => Some(e),
            None => if data_at > BUFFER_SIZE {
                Some(CodecError::EndOfBuffer)
            } else {
                name_error(encode_utf8(host), data_at)
            },
        },
        RecordView::MX { host, .. } => match head_error(r, at) {
            Some(e) => Some(e),
            None => if data_at + 2 > BUFFER_SIZE {
                Some(CodecError::EndOfBuffer)
            } else {
                name_error(encode_utf8(host), data_at + 2)
            },
        },
    }
}

/// The data of a record whose head ends at `at`, read by the record's type,
/// with what the head gave; and where the reader stands behind the record.
pub open spec fn data_at(
    bytes: Seq<u8>,
    at: int,
    domain: Seq<char>,
    code: u16,
    ttl: u32,
    data_len: u16,
) -> Result<(RecordView, int), CodecError> {
    match QueryType::of_code(code) {
        QueryType::A => if at + 4 > bytes.len() {
            Err(CodecError::EndOfBuffer)
        } else {
            Ok(
                (
                    RecordView::A {
                        domain,
                        addr: Ipv4(bytes[at], bytes[at + 1], bytes[at + 2], bytes[at + 3]),
                        ttl,
                    },
                    at + 4,
                ),
            )
        },
        QueryType::AAAA => if at + 16 > bytes.len() {
            Err(CodecError::EndOfBuffer)
        } else {
            Ok(
                (
                    RecordView::AAAA {
                        domain,
                        addr: Ipv6(
                            u16_at(bytes, at),
                            u16_at(bytes, at + 2),
                            u16_at(bytes, at + 4),
                            u16_at(bytes, at + 6),
                            u16_at(bytes, at + 8),
                            u16_at(bytes, at + 10),
                            u16_at(bytes, at + 12),
                            u16_at(bytes, at + 14),
                        ),
                        ttl,
                    },
                    at + 16,
                ),
            )
        },
        QueryType::NS => match name_at(bytes, at) {
            Ok((host, end)) => Ok((RecordView::NS { domain, host, ttl }, end)),
            Err(e) => Err(e),
        },
        QueryType::CNAME => match name_at(bytes, at) {
            Ok((host, end)) => Ok((RecordView::CNAME { domain, host, ttl }, end)),
            Err(e) => Err(e),
        },
        QueryType::MX => if at + 2 > bytes.len() {
            Err(CodecError::EndOfBuffer)
        } else {
            match name_at(bytes, at + 2) {
                Ok((host, end)) => Ok(
                    (RecordView::MX { domain, priority: u16_at(bytes, at), host, ttl }, end),
                ),
                Err(e) => Err(e),
            }
        },
        QueryType::UNKNOWN(_) => if at + data_len > bytes.len() {
            Err(CodecError::EndOfBuffer)
        } else {
            Ok((RecordView::UNKNOWN { domain, qtype: code, data_len, ttl }, at + data_len))
        },
    }
}

/// The record that starts at `at`, and where the reader stands behind it.
/// The class is passed over. The announced length of the data counts only
/// for a record of unknown type, whose data is passed over.
pub open spec fn record_at(bytes: Seq<u8>, at: int) -> Result<(RecordView, int), CodecError> {
    match name_at(bytes, at) {
        Err(e) => Err(e),
        Ok((domain, fixed)) => if fixed + 10 > bytes.len() {
            Err(CodecError::EndOfBuffer)
        } else {
            data_at(
                bytes,
                fixed + 10,
                domain,
                u16_at(bytes, fixed),
                u32_at(bytes, fixed + 4),
                u16_at(bytes, fixed + 8),
            )
        },
    }
}

/// Writes the head of a record: name, type, class and time to live.
fn write_head(buffer: &mut BytePacketBuffer, domain: &str, code: u16, ttl: u32) -> (done: Result<
    (),
    CodecError,
>)
    ensures
        match done {
            Ok(()) => {
                &&& name_error(domain.spec_bytes(), old(buffer).pos as int) is None
                &&& old(buffer).pos + domain.spec_bytes().len() + 10 <= BUFFER_SIZE
                &&& final(buffer).pos == old(buffer).pos + domain.spec_bytes().len() + 10
                &&& final(buffer).buf@ == splice(
                    old(buffer).buf@,
                    old(buffer).pos as int,
                    name_wire(domain.spec_bytes()) + octets16(code) + octets16(1) + octets32(ttl),
                )
            },
            Err(e) => match name_error(domain.spec_bytes(), old(buffer).pos as int) {
                Some(first) => e == first,
                None => e == CodecError::EndOfBuffer && old(buffer).pos + domain.spec_bytes().len()
                    + 10 > BUFFER_SIZE,
            },
        },
{
    let ghost base = buffer.buf@;
    let ghost origin = buffer.pos as int;
    let ghost name = name_wire(domain.spec_bytes());
    proof {
        lemma_name_wire_len(domain.spec_bytes(), 0);
    }
    buffer.write_qname(domain)?;
    buffer.write_u16(code)?;
    proof {
        lemma_splice_twice(base, origin, name, octets16(code));
    }
    buffer.write_u16(1)?;
    proof {
        lemma_splice_twice(base, origin, name + octets16(code), octets16(1));
    }
    buffer.write_u32(ttl)?;
    proof {
        lemma_splice_twice(base, origin, name + octets16(code) + octets16(1), octets32(ttl));
    }
    Ok(())
}

/// What stands before the host name in the data of a record that names a
/// host: the priority, for a mail exchange.
pub open spec fn before_host(priority: Option<u16>) -> Seq<u8> {
    match priority {
        Some(p) => octets16(p),
        None => Seq::empty(),
    }
}

/// Writes a record whose data is a host name, with a priority before it
/// where one is given. The length of the data is left open first and filled
/// in when the data has been written.
fn write_with_host(
    buffer: &mut BytePacketBuffer,
    domain: &str,
    code: u16,
    ttl: u32,
    priority: Option<u16>,
    host: &str,
) -> (done: Result<(), CodecError>)
    ensures
        ({
            let at = old(buffer).pos as int;
            let head = name_wire(domain.spec_bytes()) + octets16(code) + octets16(1) + octets32(
                ttl,
            );
            let data = before_host(priority) + name_wire(host.spec_bytes());
            let data_at = at + domain.spec_bytes().len() + 12;
            let host_at = data_at + before_host(priority).len();
            match done {
                Ok(()) => {
                    &&& final(buffer).pos <= BUFFER_SIZE
                    &&& name_error(domain.spec_bytes(), at) is None
                    &&& host_at <= BUFFER_SIZE
                    &&& name_error(host.spec_bytes(), host_at) is None
                    &&& final(buffer).pos == at + head.len() + 2 + data.len()
                    &&& final(buffer).buf@ == splice(
                        old(buffer).buf@,
                        at,
                        head + octets16(data.len() as u16) + data,
                    )
                },
                Err(e) => match name_error(domain.spec_bytes(), at) {
                    Some(first) => e == first,
                    None => if host_at > BUFFER_SIZE {
                        e == CodecError::EndOfBuffer
                    } else {
                        name_error(host.spec_bytes(), host_at) == Some(e)
                    },
                },
            }
        }),
{
    let ghost base = buffer.buf@;
    let ghost origin = buffer.pos as int;
    let ghost head = name_wire(domain.spec_bytes()) + octets16(code) + octets16(1) + octets32(ttl);
    let ghost extra = before_host(priority);
    let ghost name = name_wire(host.spec_bytes());
    proof {
        lemma_name_wire_len(domain.spec_bytes(), 0);
        lemma_name_wire_len(host.spec_bytes(), 0);
    }
    write_head(buffer, domain, code, ttl)?;
    let len_at = buffer.pos();
    buffer.write_u16(0)?;
    proof {
        lemma_splice_twice(base, origin, head, octets16(0));
    }
    match priority {
        Some(p) => {
            buffer.write_u16(p)?;
            proof {
                lemma_splice_twice(base, origin, head + octets16(0), octets16(p));
            }
        },
        None => {
            assert(head + octets16(0) + extra =~= head + octets16(0));
        },
    }
    buffer.write_qname(host)?;
    proof {
        lemma_splice_twice(base, origin, head + octets16(0) + extra, name);
        assert(head + octets16(0) + extra + name =~= head + octets16(0) + (extra + name));
    }
    let size = buffer.pos() - (len_at + 2);
    let _ = buffer.set_u16(len_at, size as u16);
    proof {
        lemma_splice_patch(base, origin, head, octets16(0), octets16(size as u16), extra + name);
    }
    Ok(())
}

/// Writes a record whose data has a fixed length.
fn write_with_data(
    buffer: &mut BytePacketBuffer,
    domain: &str,
    code: u16,
    ttl: u32,
    data: &[u8],
) -> (done: Result<(), CodecError>)
    requires
        data@.len() <= 16,
    ensures
        ({
            let at = old(buffer).pos as int;
            let head = name_wire(domain.spec_bytes()) + octets16(code) + octets16(1) + octets32(
                ttl,
            );
            let data_at = at + domain.spec_bytes().len() + 12;
            match done {
                Ok(()) => {
                    &&& final(buffer).pos <= BUFFER_SIZE
                    &&& name_error(domain.spec_bytes(), at) is None
                    &&& data_at + data@.len() <= BUFFER_SIZE
                    &&& final(buffer).pos == data_at + data@.len()
                    &&& final(buffer).buf@ == splice(
                        old(buffer).buf@,
                        at,
                        head + octets16(data@.len() as u16) + data@,
                    )
                },
                Err(e) => match name_error(domain.spec_bytes(), at) {
                    Some(first) => e == first,
                    None => e == CodecError::EndOfBuffer && data_at + data@.len() > BUFFER_SIZE,
                },
            }
        }),
{
    let ghost base = buffer.buf@;
    let ghost origin = buffer.pos as int;
    let ghost head = name_wire(domain.spec_bytes()) + octets16(code) + octets16(1) + octets32(ttl);
    let ghost front = head + octets16(data@.len() as u16);
    proof {
        lemma_name_wire_len(domain.spec_bytes(), 0);
    }
    write_head(buffer, domain, code, ttl)?;
    buffer.write_u16(data.len() as u16)?;
    proof {
        lemma_splice_twice(base, origin, head, octets16(data@.len() as u16));
    }
    buffer.write_octets(data)?;
    proof {
        lemma_splice_twice(base, origin, front, data@);
    }
    Ok(())
}

/// The four octets of an address.
fn ipv4_octets(addr: Ipv4) -> (octets: [u8; 4])
    ensures
        octets@ == ipv4_wire(addr),
{
    let octets = [addr.0, addr.1, addr.2, addr.3];
    assert(octets@ =~= ipv4_wire(addr));
    octets
}

/// The sixteen octets of an address.
fn ipv6_octets(addr: Ipv6) -> (octets: [u8; 16])
    ensures
        octets@ == ipv6_wire(addr),
{
    let octets = [
        (addr.0 / 256) as u8,
        (addr.0 % 256) as u8,
        (addr.1 / 256) as u8,
        (addr.1 % 256) as u8,
        (addr.2 / 256) as u8,
        (addr.2 % 256) as u8,
        (addr.3 / 256) as u8,
        (addr.3 % 256) as u8,
        (addr.4 / 256) as u8,
        (addr.4 % 256) as u8,
        (addr.5 / 256) as u8,
        (addr.5 % 256) as u8,
        (addr.6 / 256) as u8,
        (addr.6 % 256) as u8,
        (addr.7 / 256) as u8,
        (addr.7 % 256) as u8,
    ];
    assert(octets@ =~= ipv6_wire(addr));
    octets
}

impl DnsRecord {
    fn write_fields(&self, buffer: &mut BytePacketBuffer) -> (done: Result<(), CodecError>)
        ensures
            old(buffer).wf() && done is Ok ==> final(buffer).wf(),
            match done {
                Ok(()) => {
                    &&& record_error(self@, old(buffer).pos as int) is None
                    &&& final(buffer).pos == old(buffer).pos + record_wire(self@).len()
                    &&& final(buffer).buf@ == splice(
                        old(buffer).buf@,
                        old(buffer).pos as int,
                        record_wire(self@),
                    )
                },
                Err(e) => record_error(self@, old(buffer).pos as int) == Some(e),
            },
    {
        proof {
            lemma_name_wire_len(encode_utf8(self@.domain()), 0);
        }
        match self {
            DnsRecord::A { domain, addr, ttl } => {
                let data = ipv4_octets(*addr);
                write_with_data(
                    buffer,
                    domain.as_str(),
                    QueryType::A.to_num(),
                    *ttl,
                    data.as_slice(),
                )
            },
            DnsRecord::NS { domain, host, ttl } => {
                assert(before_host(None) + name_wire(encode_utf8(host@)) =~= record_data(self@));
                write_with_host(
                    buffer,
                    domain.as_str(),
                    QueryType::NS.to_num(),
                    *ttl,
                    None,
                    host.as_str(),
                )
            },
            DnsRecord::CNAME { domain, host, ttl } => {
                assert(before_host(None) + name_wire(encode_utf8(host@)) =~= record_data(self@));
                write_with_host(
                    buffer,
                    domain.as_str(),
                    QueryType::CNAME.to_num(),
                    *ttl,
                    None,
                    host.as_str(),
                )
            },
            DnsRecord::MX { domain, priority, host, ttl } => {
                proof {
                    lemma_name_wire_len(encode_utf8(host@), 0);
                }
                write_with_host(
                    buffer,
                    domain.as_str(),
                    QueryType::MX.to_num(),
                    *ttl,
                    Some(*priority),
                    host.as_str(),
                )
            },
            DnsRecord::AAAA { domain, addr, ttl } => {
                let data = ipv6_octets(*addr);
                write_with_data(
                    buffer,
                    domain.as_str(),
                    QueryType::AAAA.to_num(),
                    *ttl,
                    data.as_slice(),
                )
            },
            DnsRecord::UNKNOWN { .. } => {
                proof {
                    lemma_splice_nothing(buffer.buf@, buffer.pos as int);
                }
                Ok(())
            },
        }
    }

    fn read_fields(buffer: &mut BytePacketBuffer) -> (record: Result<DnsRecord, CodecError>)
        ensures
            final(buffer).buf == old(buffer).buf,
            old(buffer).wf() ==> final(buffer).wf(),
            match record {
                Ok(r) => record_at(old(buffer).buf@, old(buffer).pos as int) == found(
                    r@,
                    final(buffer).pos as int,
                ),
                Err(e) => record_at(old(buffer).buf@, old(buffer).pos as int) matches Err(why)
                    && why == e,
            },
    {
        let mut domain = String::new();
        buffer.read_qname(&mut domain)?;
        assert(domain@ =~= name_at(old(buffer).buf@, old(buffer).pos as int)->Ok_0.0);
        let qtype_num = buffer.read_u16()?;
        let _ = buffer.read_u16()?;
        let ttl = buffer.read_u32()?;
        let data_len = buffer.read_u16()?;
        match QueryType::from_num(qtype_num) {
            QueryType::A => {
                let a = buffer.read()?;
                let b = buffer.read()?;
                let c = buffer.read()?;
                let d = buffer.read()?;
                Ok(DnsRecord::A { domain, addr: Ipv4(a, b, c, d), ttl })
            },
            QueryType::AAAA => {
                let g0 = buffer.read_u16()?;
                let g1 = buffer.read_u16()?;
                let g2 = buffer.read_u16()?;
                let g3 = buffer.read_u16()?;
                let g4 = buffer.read_u16()?;
                let g5 = buffer.read_u16()?;
                let g6 = buffer.read_u16()?;
                let g7 = buffer.read_u16()?;
                Ok(DnsRecord::AAAA { domain, addr: Ipv6(g0, g1, g2, g3, g4, g5, g6, g7), ttl })
            },
            QueryType::NS => {
                let ghost at = buffer.pos as int;
                let mut host = String::new();
                buffer.read_qname(&mut host)?;
                assert(host@ =~= name_at(buffer.buf@, at)->Ok_0.0);
                Ok(DnsRecord::NS { domain, host, ttl })
            },
            QueryType::CNAME => {
                let ghost at = buffer.pos as int;
                let mut host = String::new();
                buffer.read_qname(&mut host)?;
                assert(host@ =~= name_at(buffer.buf@, at)->Ok_0.0);
                Ok(DnsRecord::CNAME { domain, host, ttl })
            },
            QueryType::MX => {
                let priority = buffer.read_u16()?;
                let ghost at = buffer.pos as int;
                let mut host = String::new();
                buffer.read_qname(&mut host)?;
                assert(host@ =~= name_at(buffer.buf@, at)->Ok_0.0);
                Ok(DnsRecord::MX { domain, priority, host, ttl })
            },
            QueryType::UNKNOWN(_) => {
                match buffer.step(data_len as usize) {
                    Ok(()) => Ok(DnsRecord::UNKNOWN { domain, qtype: qtype_num, data_len, ttl }),
                    Err(()) => Err(CodecError::EndOfBuffer),
                }
            },
        }
    }

    /// Reads the record under the cursor and moves the cursor past it. Where
    /// no record can be read, the cursor stays.
    pub fn read(buffer: &mut BytePacketBuffer) -> (record: Result<DnsRecord, CodecError>)
        ensures
            final(buffer).buf == old(buffer).buf,
            old(buffer).wf() ==> final(buffer).wf(),
            match record {
                Ok(r) => record_at(old(buffer).buf@, old(buffer).pos as int) == found(
                    r@,
                    final(buffer).pos as int,
                ),
                Err(e) => record_at(old(buffer).buf@, old(buffer).pos as int) matches Err(why)
                    && why == e && final(buffer).pos == old(buffer).pos,
            },
    {
        let start = buffer.pos;
        let record = Self::read_fields(buffer);
        if record.is_err() {
            buffer.pos = start;
        }
        record
    }

    /// Writes the record under the cursor and says how many octets that
    /// took. A record of unknown type is passed over: nothing is written for
    /// it. Where the record cannot be written, the buffer stays as it was.
    pub fn write(&self, buffer: &mut BytePacketBuffer) -> (written: Result<usize, CodecError>)
        ensures
            old(buffer).wf() ==> final(buffer).wf(),
            match written {
                Ok(n) => {
                    &&& record_error(self@, old(buffer).pos as int) is None
                    &&& n == record_wire(self@).len()
                    &&& final(buffer).pos == old(buffer).pos + n
                    &&& final(buffer).buf@ == splice(
                        old(buffer).buf@,
                        old(buffer).pos as int,
                        record_wire(self@),
                    )
                },
                Err(e) => {
                    &&& record_error(self@, old(buffer).pos as int) == Some(e)
                    &&& *final(buffer) == *old(buffer)
                },
            },
    {
        let saved = *buffer;
        match self.write_fields(buffer) {
            Ok(()) => Ok(buffer.pos - saved.pos),
            Err(e) => {
                *buffer = saved;
                Err(e)
            },
        }
    }
}

/// A record that a reader gives back as it was written: one of a known
/// type, whose names are plain.
pub open spec fn plain_record(r: RecordView) -> bool {
    match r {
        RecordView::UNKNOWN { .. } => false,
        RecordView::A { domain, .. } => plain_name(domain),
        RecordView::NS { domain, host, .. } => plain_name(domain) && plain_name(host),
        RecordView::CNAME { domain, host, .. } => plain_name(domain) && plain_name(host),
        RecordView::MX { domain, host, .. } => plain_name(domain) && plain_name(host),
        RecordView::AAAA { domain, .. } => plain_name(domain),
    }
}

/// Where the octets of an IPv6 address stand, its eight groups are read.
proof fn lemma_ipv6_stands(bytes: Seq<u8>, at: int, addr: Ipv6)
    requires
        holds_at(bytes, at, ipv6_wire(addr)),
    ensures
        ipv6_wire(addr).len() == 16,
        u16_at(bytes, at) == addr.0,
        u16_at(bytes, at + 2) == addr.1,
        u16_at(bytes, at + 4) == addr.2,
        u16_at(bytes, at + 6) == addr.3,
        u16_at(bytes, at + 8) == addr.4,
        u16_at(bytes, at + 10) == addr.5,
        u16_at(bytes, at + 12) == addr.6,
        u16_at(bytes, at + 14) == addr.7,
{
    let w0 = octets16(addr.0);
    let w1 = w0 + octets16(addr.1);
    let w2 = w1 + octets16(addr.2);
    let w3 = w2 + octets16(addr.3);
    let w4 = w3 + octets16(addr.4);
    let w5 = w4 + octets16(addr.5);
    let w6 = w5 + octets16(addr.6);
    lemma_holds_split(bytes, at, w6, octets16(addr.7));
    lemma_holds_split(bytes, at, w5, octets16(addr.6));
    lemma_holds_split(bytes, at, w4, octets16(addr.5));
    lemma_holds_split(bytes, at, w3, octets16(addr.4));
    lemma_holds_split(bytes, at, w2, octets16(addr.3));
    lemma_holds_split(bytes, at, w1, octets16(addr.2));
    lemma_holds_split(bytes, at, w0, octets16(addr.1));
    lemma_u16_stands(bytes, at, addr.0);
    lemma_u16_stands(bytes, at + 2, addr.1);
    lemma_u16_stands(bytes, at + 4, addr.2);
    lemma_u16_stands(bytes, at + 6, addr.3);
    lemma_u16_stands(bytes, at + 8, addr.4);
    lemma_u16_stands(bytes, at + 10, addr.5);
    lemma_u16_stands(bytes, at + 12, addr.6);
    lemma_u16_stands(bytes, at + 14, addr.7);
}

/// Where a written record stands, its head is read: the name, the type
/// and the time to live.
proof fn lemma_head_stands(bytes: Seq<u8>, at: int, r: RecordView)
    requires
        plain_record(r),
        holds_at(bytes, at, record_wire(r)),
    ensures
        record_head(r).len() == r.domain().len() + 10,
        name_at(bytes, at) == found(r.domain(), at + r.domain().len() + 2),
        at + r.domain().len() + 12 <= bytes.len(),
        u16_at(bytes, at + r.domain().len() + 2) == r.code(),
        u32_at(bytes, at + r.domain().len() + 6) == r.ttl(),
        holds_at(bytes, at + r.domain().len() + 12, record_data(r)),
{
    let name = name_wire(encode_utf8(r.domain()));
    let w1 = name + octets16(r.code());
    let w2 = w1 + octets16(1);
    let head = record_head(r);
    let size = octets16(record_data(r).len() as u16);
    lemma_holds_split(bytes, at, head + size, record_data(r));
    lemma_holds_split(bytes, at, head, size);
    lemma_holds_split(bytes, at, w2, octets32(r.ttl()));
    lemma_holds_split(bytes, at, w1, octets16(1));
    lemma_holds_split(bytes, at, name, octets16(r.code()));
    lemma_name_round_trip(bytes, at, r.domain());
    lemma_u16_stands(bytes, at + name.len(), r.code());
    lemma_u32_stands(bytes, at + w2.len(), r.ttl());
}

/// A plain record that was written is the record that is read at the same
/// place, and the reader then stands behind it.
pub proof fn lemma_record_round_trip(bytes: Seq<u8>, at: int, r: RecordView)
    requires
        plain_record(r),
        holds_at(bytes, at, record_wire(r)),
    ensures
        record_at(bytes, at) == found(r, at + record_wire(r).len()),
{
    lemma_head_stands(bytes, at, r);
    let data_at = at + r.domain().len() + 12;
    match r {
        RecordView::UNKNOWN { .. } => {},
        RecordView::A { addr, .. } => {
            let data = ipv4_wire(addr);
            assert(bytes[data_at + 0] == data[0]);
            assert(bytes[data_at + 1] == data[1]);
            assert(bytes[data_at + 2] == data[2]);
            assert(bytes[data_at + 3] == data[3]);
        },
        RecordView::AAAA { addr, .. } => {
            lemma_ipv6_stands(bytes, data_at, addr);
        },
        RecordView::NS { host, .. } => {
            lemma_name_round_trip(bytes, data_at, host);
        },
        RecordView::CNAME { host, .. } => {
            lemma_name_round_trip(bytes, data_at, host);
        },
        RecordView::MX { priority, host, .. } => {
            lemma_holds_split(bytes, data_at, octets16(priority), name_wire(encode_utf8(host)));
            lemma_u16_stands(bytes, data_at, priority);
            lemma_name_round_trip(bytes, data_at + 2, host);
        },
    }
}

} // verus!
