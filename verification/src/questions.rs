//! The questions of a message.

use crate::bytepacketbuffer::{BytePacketBuffer, BUFFER_SIZE};
use crate::error::{found, CodecError};
use crate::name::{
    lemma_name_round_trip, lemma_name_wire_len, name_at, name_error, name_wire, plain_name,
};
use crate::qtype::QueryType;
use crate::wire::{
    holds_at, lemma_holds_split, lemma_splice_twice, lemma_u16_stands, octets16, splice, u16_at,
};
use vstd::prelude::*;
use vstd::string::StringExecFns;
use vstd::utf8::encode_utf8;

verus! {

/// What a message asks: a name and the type of record wanted for it.
#[derive(Debug, Clone, PartialEq, Eq)]
pub struct DnsQuestion {
    pub name: String,
    pub qtype: QueryType,
}

/// What a question holds, its name as text.
pub struct QuestionView {
    pub name: Seq<char>,
    pub qtype: QueryType,
}

impl View for DnsQuestion {
    type V = QuestionView;

    open spec fn view(&self) -> QuestionView {
        QuestionView { name: self.name@, qtype: self.qtype }
    }
}

/// A question on the wire: its name, its type and the class IN.
pub open spec fn question_wire(q: QuestionView) -> Seq<u8> {
    name_wire(encode_utf8(q.name)) + octets16(q.qtype.code()) + octets16(1)
}

/// Why a question cannot be written at `at`, if it cannot.
pub open spec fn question_error(q: QuestionView, at: int) -> Option<CodecError> {
    match name_error(encode_utf8(q.name), at) {
        Some(e) => Some(e),
        None => if at + encode_utf8(q.name).len() + 6 > BUFFER_SIZE {
            Some(CodecError::EndOfBuffer)
        } else {
            None
        },
    }
}

/// The question that starts at `at`, and where the reader stands behind it.
/// The class is passed over.
pub open spec fn question_at(bytes: Seq<u8>, at: int) -> Result<(QuestionView, int), CodecError> {
    match name_at(bytes, at) {
        Err(e) => Err(e),
        Ok((name, fixed)) => if fixed + 4 > bytes.len() {
            Err(CodecError::EndOfBuffer)
        } else {
            Ok((QuestionView { name, qtype: QueryType::of_code(u16_at(bytes, fixed)) }, fixed + 4))
        },
    }
}

impl DnsQuestion {
    pub fn new(name: String, qtype: QueryType) -> (question: DnsQuestion)
        ensures
            question.name == name,
            question.qtype == qtype,
    {
        DnsQuestion { name, qtype }
    }

    fn read_fields(buffer: &mut BytePacketBuffer) -> (fields: Result<
        (String, QueryType),
        CodecError,
    >)
        ensures
            final(buffer).buf == old(buffer).buf,
            old(buffer).wf() ==> final(buffer).wf(),
            match fields {
                Ok((name, qtype)) => question_at(old(buffer).buf@, old(buffer).pos as int) == found(
                    QuestionView { name: name@, qtype },
                    final(buffer).pos as int,
                ),
                Err(e) => question_at(old(buffer).buf@, old(buffer).pos as int) matches Err(why)
                    && why == e,
            },
    {
        let mut name = String::new();
        buffer.read_qname(&mut name)?;
        assert(name@ =~= name_at(old(buffer).buf@, old(buffer).pos as int)->Ok_0.0);
        let qtype = QueryType::from_num(buffer.read_u16()?);
        let _ = buffer.read_u16()?;
        Ok((name, qtype))
    }

    /// Reads the question under the cursor into `self` and moves the cursor
    /// past it. The name that was read is put behind what `self.name` holds.
    /// Where no question can be read, nothing changes.
    pub fn read(&mut self, buffer: &mut BytePacketBuffer) -> (done: Result<(), CodecError>)
        ensures
            final(buffer).buf == old(buffer).buf,
            old(buffer).wf() ==> final(buffer).wf(),
            match done {
                Ok(()) => question_at(old(buffer).buf@, old(buffer).pos as int) matches Ok(
                    (q, end),
                ) && final(self).name@ == old(self).name@ + q.name && final(self).qtype == q.qtype
                    && final(buffer).pos == end,
                Err(e) => {
                    &&& question_at(old(buffer).buf@, old(buffer).pos as int) matches Err(why)
                    &&& why == e
                    &&& final(self)@ == old(self)@
                    &&& final(buffer).pos == old(buffer).pos
                },
            },
    {
        let start = buffer.pos;
        match Self::read_fields(buffer) {
            Ok((name, qtype)) => {
                self.name.append(name.as_str());
                self.qtype = qtype;
                Ok(())
            },
            Err(e) => {
                buffer.pos = start;
                Err(e)
            },
        }
    }

    /// Writes the question under the cursor and moves the cursor past it.
    /// Where the question cannot be written, the buffer stays as it was.
    pub fn write(&self, buffer: &mut BytePacketBuffer) -> (done: Result<(), CodecError>)
        ensures
            old(buffer).wf() ==> final(buffer).wf(),
            match done {
                Ok(()) => {
                    &&& question_error(self@, old(buffer).pos as int) is None
                    &&& final(buffer).pos == old(buffer).pos + question_wire(self@).len()
                    &&& final(buffer).buf@ == splice(
                        old(buffer).buf@,
                        old(buffer).pos as int,
                        question_wire(self@),
                    )
                },
                Err(e) => {
                    &&& question_error(self@, old(buffer).pos as int) == Some(e)
                    &&& *final(buffer) == *old(buffer)
                },
            },
    {
        let saved = *buffer;
        let ghost name = name_wire(encode_utf8(self.name@));
        proof {
            lemma_name_wire_len(encode_utf8(self.name@), 0);
        }
        match buffer.write_qname(self.name.as_str()) {
            Ok(()) => {},
            Err(e) => {
                return Err(e);
            },
        }
        let typenum = self.qtype.to_num();
        if buffer.write_u16(typenum).is_err() || buffer.write_u16(1).is_err() {
            *buffer = saved;
            return Err(CodecError::EndOfBuffer);
        }
        proof {
            lemma_splice_twice(saved.buf@, saved.pos as int, name, octets16(typenum));
            lemma_splice_twice(saved.buf@, saved.pos as int, name + octets16(typenum), octets16(1));
        }
        Ok(())
    }
}

/// A question that a reader gives back as it was written: its name is
/// plain, and its type is the one that stands for its code.
pub open spec fn plain_question(q: QuestionView) -> bool {
    plain_name(q.name) && QueryType::of_code(q.qtype.code()) == q.qtype
}

/// A plain question that was written is the question that is read at the
/// same place, and the reader then stands behind it.
pub proof fn lemma_question_round_trip(bytes: Seq<u8>, at: int, q: QuestionView)
    requires
        plain_question(q),
        holds_at(bytes, at, question_wire(q)),
    ensures
        question_wire(q).len() == q.name.len() + 6,
        question_at(bytes, at) == found(q, at + question_wire(q).len()),
{
    let name = name_wire(encode_utf8(q.name));
    let code = octets16(q.qtype.code());
    lemma_holds_split(bytes, at, name + code, octets16(1));
    lemma_holds_split(bytes, at, name, code);
    lemma_name_round_trip(bytes, at, q.name);
    lemma_u16_stands(bytes, at + name.len(), q.qtype.code());
}

} // verus!
