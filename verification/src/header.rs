//! The header of a message and the layout of its flags.

use crate::bytepacketbuffer::{BytePacketBuffer, BUFFER_SIZE};
use crate::error::CodecError;
use crate::opcodes::ResultCode;
use crate::wire::{holds_at, high_octet, lemma_u16_round_trip, low_octet, splice, u16_at};
use vstd::prelude::*;

verus! {

/// The number of octets that a header takes on the wire.
pub const HEADER_SIZE: usize = 12;

/// The twelve octets that every message starts with.
#[derive(Clone, Copy, Debug, PartialEq, Eq, Structural)]
pub struct DnsHeader {
    pub id: u16,
    pub recursion_desired: bool,
    pub truncated_message: bool,
    pub authoritative_answer: bool,
    /// A number of four bits; the writer keeps its low four.
    pub opcode: u8,
    pub response: bool,
    pub rescode: ResultCode,
    pub checking_disabled: bool,
    pub authed_data: bool,
    pub z: bool,
    pub recursion_available: bool,
    pub questions: u16,
    pub answers: u16,
    pub authoritative_entries: u16,
    pub resource_entries: u16,
}

/// One flag as a bit.
pub open spec fn bit(flag: bool) -> u8 {
    if flag {
        1
    } else {
        0
    }
}

/// An octet packed from five fields, the first in the top bit, the second
/// in the four bits below it, the others in one bit each.
pub open spec fn pack_high(top: u8, four: u8, third: u8, second: u8, last: u8) -> u8 {
    (top << 7) | ((four & 0x0F) << 3) | (third << 2) | (second << 1) | last
}

/// An octet packed from five fields, the first four in one bit each from
/// the top bit down, the last in the low four bits.
pub open spec fn pack_low(top: u8, sixth: u8, fifth: u8, fourth: u8, low: u8) -> u8 {
    (top << 7) | (sixth << 6) | (fifth << 5) | (fourth << 4) | low
}

/// The first octet of the flags: from the top bit down the response flag,
/// four bits of opcode, then the flags for an authoritative answer, a
/// truncated message and a wish for recursion.
pub open spec fn flags_high(h: DnsHeader) -> u8 {
    pack_high(
        bit(h.response),
        h.opcode,
        bit(h.authoritative_answer),
        bit(h.truncated_message),
        bit(h.recursion_desired),
    )
}

/// The second octet of the flags: from the top bit down the flags for
/// recursion on offer, the reserved bit, authenticated data and checking
/// switched off, then four bits of result code.
pub open spec fn flags_low(h: DnsHeader) -> u8 {
    pack_low(
        bit(h.recursion_available),
        bit(h.z),
        bit(h.authed_data),
        bit(h.checking_disabled),
        h.rescode.code(),
    )
}

/// A header on the wire: the identifier, the two octets of flags, and the
/// four counts.
pub open spec fn header_wire(h: DnsHeader) -> Seq<u8> {
    seq![
        high_octet(h.id),
        low_octet(h.id),
        flags_high(h),
        flags_low(h),
        high_octet(h.questions),
        low_octet(h.questions),
        high_octet(h.answers),
        low_octet(h.answers),
        high_octet(h.authoritative_entries),
        low_octet(h.authoritative_entries),
        high_octet(h.resource_entries),
        low_octet(h.resource_entries),
    ]
}

/// The header that the twelve octets from `at` on spell.
pub open spec fn header_at(bytes: Seq<u8>, at: int) -> DnsHeader {
    let high = bytes[at + 2];
    let low = bytes[at + 3];
    DnsHeader {
        id: u16_at(bytes, at),
        recursion_desired: high & 0x01 != 0,
        truncated_message: high & 0x02 != 0,
        authoritative_answer: high & 0x04 != 0,
        opcode: (high >> 3) & 0x0F,
        response: high & 0x80 != 0,
        rescode: ResultCode::of_code(low & 0x0F),
        checking_disabled: low & 0x10 != 0,
        authed_data: low & 0x20 != 0,
        z: low & 0x40 != 0,
        recursion_available: low & 0x80 != 0,
        questions: u16_at(bytes, at + 4),
        answers: u16_at(bytes, at + 6),
        authoritative_entries: u16_at(bytes, at + 8),
        resource_entries: u16_at(bytes, at + 10),
    }
}

fn flag(set: bool) -> (n: u8)
    ensures
        n == bit(set),
{
    if set {
        1
    } else {
        0
    }
}

impl DnsHeader {
    /// A header of zeros: a query with no flags set and no entries.
    pub open spec fn new_spec() -> DnsHeader {
        DnsHeader {
            id: 0,
            recursion_desired: false,
            truncated_message: false,
            authoritative_answer: false,
            opcode: 0,
            response: false,
            rescode: ResultCode::NOERROR,
            checking_disabled: false,
            authed_data: false,
            z: false,
            recursion_available: false,
            questions: 0,
            answers: 0,
            authoritative_entries: 0,
            resource_entries: 0,
        }
    }

    /// A header of zeros: a query with no flags set and no entries.
    #[verifier::when_used_as_spec(new_spec)]
    pub fn new() -> (h: DnsHeader)
        ensures
            h == DnsHeader::new_spec(),
    {
        DnsHeader {
            id: 0,
            recursion_desired: false,
            truncated_message: false,
            authoritative_answer: false,
            opcode: 0,
            response: false,
            rescode: ResultCode::NOERROR,
            checking_disabled: false,
            authed_data: false,
            z: false,
            recursion_available: false,
            questions: 0,
            answers: 0,
            authoritative_entries: 0,
            resource_entries: 0,
        }
    }

    /// Reads a header from under the cursor into `self`. Where fewer than
    /// twelve octets are left, nothing is read and `self` stays as it was.
    pub fn read(&mut self, buffer: &mut BytePacketBuffer) -> (done: Result<(), CodecError>)
        ensures
            final(buffer).buf == old(buffer).buf,
            old(buffer).wf() ==> final(buffer).wf(),
            match done {
                Ok(()) => {
                    &&& old(buffer).pos + 12 <= BUFFER_SIZE
                    &&& *final(self) == header_at(old(buffer).buf@, old(buffer).pos as int)
                    &&& final(buffer).pos == old(buffer).pos + 12
                },
                Err(e) => {
                    &&& e == CodecError::EndOfBuffer
                    &&& old(buffer).pos + 12 > BUFFER_SIZE
                    &&& *final(self) == *old(self)
                    &&& final(buffer).pos == old(buffer).pos
                },
            },
    {
        if buffer.pos > BUFFER_SIZE - HEADER_SIZE {
            return Err(CodecError::EndOfBuffer);
        }
        let id = buffer.read_u16()?;
        let high = buffer.read()?;
        let low = buffer.read()?;
        let questions = buffer.read_u16()?;
        let answers = buffer.read_u16()?;
        let authoritative_entries = buffer.read_u16()?;
        let resource_entries = buffer.read_u16()?;
        self.id = id;
        self.recursion_desired = high & 0x01 != 0;
        self.truncated_message = high & 0x02 != 0;
        self.authoritative_answer = high & 0x04 != 0;
        self.opcode = (high >> 3) & 0x0F;
        self.response = high & 0x80 != 0;
        self.rescode = ResultCode::from_num(low & 0x0F);
        self.checking_disabled = low & 0x10 != 0;
        self.authed_data = low & 0x20 != 0;
        self.z = low & 0x40 != 0;
        self.recursion_available = low & 0x80 != 0;
        self.questions = questions;
        self.answers = answers;
        self.authoritative_entries = authoritative_entries;
        self.resource_entries = resource_entries;
        Ok(())
    }

    /// The first octet of the flags.
    fn high_flags(&self) -> (octet: u8)
        ensures
            octet == flags_high(*self),
    {
        (flag(self.response) << 7) | ((self.opcode & 0x0F) << 3) | (flag(
            self.authoritative_answer,
        ) << 2) | (flag(self.truncated_message) << 1) | flag(self.recursion_desired)
    }

    /// The second octet of the flags.
    fn low_flags(&self) -> (octet: u8)
        ensures
            octet == flags_low(*self),
    {
        (flag(self.recursion_available) << 7) | (flag(self.z) << 6) | (flag(self.authed_data) << 5)
            | (flag(self.checking_disabled) << 4) | self.rescode.to_num()
    }

    /// The twelve octets of the header.
    fn octets(&self) -> (octets: [u8; 12])
        ensures
            octets@ == header_wire(*self),
    {
        let octets = [
            (self.id / 256) as u8,
            (self.id % 256) as u8,
            self.high_flags(),
            self.low_flags(),
            (self.questions / 256) as u8,
            (self.questions % 256) as u8,
            (self.answers / 256) as u8,
            (self.answers % 256) as u8,
            (self.authoritative_entries / 256) as u8,
            (self.authoritative_entries % 256) as u8,
            (self.resource_entries / 256) as u8,
            (self.resource_entries % 256) as u8,
        ];
        assert(octets@ =~= header_wire(*self));
        octets
    }

    /// Writes the header under the cursor. Where fewer than twelve octets
    /// are left, nothing is written.
    pub fn write(&self, buffer: &mut BytePacketBuffer) -> (done: Result<(), CodecError>)
        ensures
            match done {
                Ok(()) => {
                    &&& old(buffer).pos + 12 <= BUFFER_SIZE
                    &&& final(buffer).pos == old(buffer).pos + 12
                    &&& final(buffer).buf@ == splice(
                        old(buffer).buf@,
                        old(buffer).pos as int,
                        header_wire(*self),
                    )
                },
                Err(e) => {
                    &&& e == CodecError::EndOfBuffer
                    &&& old(buffer).pos + 12 > BUFFER_SIZE
                    &&& *final(buffer) == *old(buffer)
                },
            },
    {
        let octets = self.octets();
        buffer.write_octets(octets.as_slice())
    }
}

/// Five fields packed into one octet can be told apart again.
proof fn lemma_unpack_high(top: u8, four: u8, third: u8, second: u8, last: u8)
    by (bit_vector)
    requires
        top <= 1,
        four < 16,
        third <= 1,
        second <= 1,
        last <= 1,
    ensures
        (pack_high(top, four, third, second, last) & 0x01 != 0) == (last == 1),
        (pack_high(top, four, third, second, last) & 0x02 != 0) == (second == 1),
        (pack_high(top, four, third, second, last) & 0x04 != 0) == (third == 1),
        (pack_high(top, four, third, second, last) >> 3) & 0x0F == four,
        (pack_high(top, four, third, second, last) & 0x80 != 0) == (top == 1),
{
}

/// Four flags and a number of four bits packed into one octet can be told
/// apart again.
proof fn lemma_unpack_low(top: u8, sixth: u8, fifth: u8, fourth: u8, low: u8)
    by (bit_vector)
    requires
        top <= 1,
        sixth <= 1,
        fifth <= 1,
        fourth <= 1,
        low < 16,
    ensures
        pack_low(top, sixth, fifth, fourth, low) & 0x0F == low,
        (pack_low(top, sixth, fifth, fourth, low) & 0x10 != 0) == (fourth == 1),
        (pack_low(top, sixth, fifth, fourth, low) & 0x20 != 0) == (fifth == 1),
        (pack_low(top, sixth, fifth, fourth, low) & 0x40 != 0) == (sixth == 1),
        (pack_low(top, sixth, fifth, fourth, low) & 0x80 != 0) == (top == 1),
{
}

/// Where a written header stands, each of its octets stands.
proof fn lemma_header_octets(bytes: Seq<u8>, at: int, h: DnsHeader)
    requires
        holds_at(bytes, at, header_wire(h)),
    ensures
        header_wire(h).len() == 12,
        bytes[at] == high_octet(h.id),
        bytes[at + 1] == low_octet(h.id),
        bytes[at + 2] == flags_high(h),
        bytes[at + 3] == flags_low(h),
        bytes[at + 4] == high_octet(h.questions),
        bytes[at + 5] == low_octet(h.questions),
        bytes[at + 6] == high_octet(h.answers),
        bytes[at + 7] == low_octet(h.answers),
        bytes[at + 8] == high_octet(h.authoritative_entries),
        bytes[at + 9] == low_octet(h.authoritative_entries),
        bytes[at + 10] == high_octet(h.resource_entries),
        bytes[at + 11] == low_octet(h.resource_entries),
{
    let w = header_wire(h);
    assert(bytes[at + 0] == w[0]);
    assert(bytes[at + 1] == w[1]);
    assert(bytes[at + 2] == w[2]);
    assert(bytes[at + 3] == w[3]);
    assert(bytes[at + 4] == w[4]);
    assert(bytes[at + 5] == w[5]);
    assert(bytes[at + 6] == w[6]);
    assert(bytes[at + 7] == w[7]);
    assert(bytes[at + 8] == w[8]);
    assert(bytes[at + 9] == w[9]);
    assert(bytes[at + 10] == w[10]);
    assert(bytes[at + 11] == w[11]);
}

/// The flags of a header with an opcode of four bits are read from its two
/// octets of flags as they were.
proof fn lemma_flags_round_trip(h: DnsHeader)
    requires
        h.opcode < 16,
    ensures
        h.recursion_desired == (flags_high(h) & 0x01 != 0),
        h.truncated_message == (flags_high(h) & 0x02 != 0),
        h.authoritative_answer == (flags_high(h) & 0x04 != 0),
        h.opcode == (flags_high(h) >> 3) & 0x0F,
        h.response == (flags_high(h) & 0x80 != 0),
        h.rescode == ResultCode::of_code(flags_low(h) & 0x0F),
        h.checking_disabled == (flags_low(h) & 0x10 != 0),
        h.authed_data == (flags_low(h) & 0x20 != 0),
        h.z == (flags_low(h) & 0x40 != 0),
        h.recursion_available == (flags_low(h) & 0x80 != 0),
{
    lemma_unpack_high(
        bit(h.response),
        h.opcode,
        bit(h.authoritative_answer),
        bit(h.truncated_message),
        bit(h.recursion_desired),
    );
    lemma_unpack_low(
        bit(h.recursion_available),
        bit(h.z),
        bit(h.authed_data),
        bit(h.checking_disabled),
        h.rescode.code(),
    );
}

/// A header with an opcode of four bits survives the way onto the wire and
/// back.
pub proof fn lemma_header_round_trip(bytes: Seq<u8>, at: int, h: DnsHeader)
    requires
        h.opcode < 16,
        holds_at(bytes, at, header_wire(h)),
    ensures
        header_wire(h).len() == 12,
        header_at(bytes, at) == h,
{
    lemma_header_octets(bytes, at, h);
    lemma_flags_round_trip(h);
    lemma_u16_round_trip(h.id);
    lemma_u16_round_trip(h.questions);
    lemma_u16_round_trip(h.answers);
    lemma_u16_round_trip(h.authoritative_entries);
    lemma_u16_round_trip(h.resource_entries);
    let read = header_at(bytes, at);
    assert(read.id == h.id);
    assert(read.questions == h.questions);
    assert(read.answers == h.answers);
    assert(read.authoritative_entries == h.authoritative_entries);
    assert(read.resource_entries == h.resource_entries);
}

} // verus!
