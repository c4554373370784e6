//! Whole messages: how they stand on the wire, and what a reply tells a
//! resolver about the servers to ask next.

use crate::address::{dotted_quad, Ipv4};
use crate::bytepacketbuffer::{BytePacketBuffer, BUFFER_SIZE};
use crate::error::{found, CodecError};
use crate::header::{header_at, header_wire, lemma_header_round_trip, DnsHeader};
use crate::name::{ends_with, name_ends_with};
use crate::qtype::QueryType;
use crate::questions::{
    lemma_question_round_trip, plain_question, question_at, question_error, question_wire,
    DnsQuestion, QuestionView,
};
use crate::record::{
    lemma_record_round_trip, plain_record, record_at, record_error, record_wire, DnsRecord,
    RecordView,
};
use crate::wire::{
    holds_at, lemma_holds_split, lemma_splice_holds, lemma_splice_nothing, lemma_splice_twice,
    splice,
};
use vstd::prelude::*;

verus! {

/// One message: a header and its four sections.
#[derive(Clone, Debug)]
pub struct DnsPacket {
    pub header: DnsHeader,
    pub questions: Vec<DnsQuestion>,
    pub answers: Vec<DnsRecord>,
    pub authorities: Vec<DnsRecord>,
    pub resources: Vec<DnsRecord>,
}

/// What a message holds, its names as text.
pub struct PacketView {
    pub header: DnsHeader,
    pub questions: Seq<QuestionView>,
    pub answers: Seq<RecordView>,
    pub authorities: Seq<RecordView>,
    pub resources: Seq<RecordView>,
}

/// What each of these questions holds.
pub open spec fn question_views(questions: Seq<DnsQuestion>) -> Seq<QuestionView> {
    Seq::new(questions.len(), |i: int| questions[i]@)
}

/// What each of these records holds.
pub open spec fn record_views(records: Seq<DnsRecord>) -> Seq<RecordView> {
    Seq::new(records.len(), |i: int| records[i]@)
}

impl View for DnsPacket {
    type V = PacketView;

    open spec fn view(&self) -> PacketView {
        PacketView {
            header: self.header,
            questions: question_views(self.questions@),
            answers: record_views(self.answers@),
            authorities: record_views(self.authorities@),
            resources: record_views(self.resources@),
        }
    }
}

/// Questions on the wire, one behind the other.
pub open spec fn questions_wire(questions: Seq<QuestionView>) -> Seq<u8>
    decreases questions.len(),
{
    if questions.len() == 0 {
        Seq::empty()
    } else {
        question_wire(questions[0]) + questions_wire(questions.drop_first())
    }
}

/// Records on the wire, one behind the other.
pub open spec fn records_wire(records: Seq<RecordView>) -> Seq<u8>
    decreases records.len(),
{
    if records.len() == 0 {
        Seq::empty()
    } else {
        record_wire(records[0]) + records_wire(records.drop_first())
    }
}

/// Why questions cannot be written from `at` on, if they cannot: the first
/// one that cannot be written decides.
pub open spec fn questions_error(questions: Seq<QuestionView>, at: int) -> Option<CodecError>
    decreases questions.len(),
{
    if questions.len() == 0 {
        None
    } else {
        match question_error(questions[0], at) {
            Some(e) => Some(e),
            None => questions_error(
                questions.drop_first(),
                at + question_wire(questions[0]).len(),
            ),
        }
    }
}

/// Why records cannot be written from `at` on, if they cannot: the first one
/// that cannot be written decides.
pub open spec fn records_error(records: Seq<RecordView>, at: int) -> Option<CodecError>
    decreases records.len(),
{
    if records.len() == 0 {
        None
    } else {
        match record_error(records[0], at) {
            Some(e) => Some(e),
            None => records_error(records.drop_first(), at + record_wire(records[0]).len()),
        }
    }
}

/// Every section is short enough for its count in the header.
pub open spec fn counts_fit(p: PacketView) -> bool {
    &&& p.questions.len() <= 0xFFFF
    &&& p.answers.len() <= 0xFFFF
    &&& p.authorities.len() <= 0xFFFF
    &&& p.resources.len() <= 0xFFFF
}

/// The header of a message with the lengths of its sections as its counts.
pub open spec fn with_counts(p: PacketView) -> DnsHeader {
    DnsHeader {
        questions: p.questions.len() as u16,
        answers: p.answers.len() as u16,
        authoritative_entries: p.authorities.len() as u16,
        resource_entries: p.resources.len() as u16,
        ..p.header
    }
}

/// A message on the wire: the header with the sections' lengths as counts,
/// then the questions, the answers, the authorities and the additional
/// records.
pub open spec fn packet_wire(p: PacketView) -> Seq<u8> {
    header_wire(with_counts(p)) + questions_wire(p.questions) + records_wire(p.answers)
        + records_wire(p.authorities) + records_wire(p.resources)
}

/// Why the sections of a message cannot be written from `at` on, if they
/// cannot: the first entry that cannot be written decides.
pub open spec fn sections_error(p: PacketView, at: int) -> Option<CodecError> {
    let answers_at = at + questions_wire(p.questions).len();
    let authorities_at = answers_at + records_wire(p.answers).len();
    let resources_at = authorities_at + records_wire(p.authorities).len();
    match questions_error(p.questions, at) {
        Some(e) => Some(e),
        None => match records_error(p.answers, answers_at) {
            Some(e) => Some(e),
            None => match records_error(p.authorities, authorities_at) {
                Some(e) => Some(e),
                None => records_error(p.resources, resources_at),
            },
        },
    }
}

/// Why a message cannot be written at `at`, if it cannot.
pub open spec fn packet_error(p: PacketView, at: int) -> Option<CodecError> {
    if !counts_fit(p) {
        Some(CodecError::TooManyRecords)
    } else if at + 12 > BUFFER_SIZE {
        Some(CodecError::EndOfBuffer)
    } else {
        sections_error(p, at + 12)
    }
}

/// The `count` questions that start at `at`, and where the reader stands
/// behind them.
pub open spec fn questions_at(bytes: Seq<u8>, at: int, count: nat) -> Result<
    (Seq<QuestionView>, int),
    CodecError,
>
    decreases count,
{
    if count == 0 {
        Ok((Seq::empty(), at))
    } else {
        match question_at(bytes, at) {
            Err(e) => Err(e),
            Ok((first, next)) => match questions_at(bytes, next, (count - 1) as nat) {
                Err(e) => Err(e),
                Ok((rest, end)) => Ok((seq![first] + rest, end)),
            },
        }
    }
}

/// The `count` records that start at `at`, and where the reader stands
/// behind them.
pub open spec fn records_at(bytes: Seq<u8>, at: int, count: nat) -> Result<
    (Seq<RecordView>, int),
    CodecError,
>
    decreases count,
{
    if count == 0 {
        Ok((Seq::empty(), at))
    } else {
        match record_at(bytes, at) {
            Err(e) => Err(e),
            Ok((first, next)) => match records_at(bytes, next, (count - 1) as nat) {
                Err(e) => Err(e),
                Ok((rest, end)) => Ok((seq![first] + rest, end)),
            },
        }
    }
}

/// The message that starts at `at`: its header, and as many entries in each
/// section as the header counts; and where the reader stands behind it.
pub open spec fn packet_at(bytes: Seq<u8>, at: int) -> Result<(PacketView, int), CodecError> {
    if at + 12 > bytes.len() {
        Err(CodecError::EndOfBuffer)
    } else {
        let header = header_at(bytes, at);
        match questions_at(bytes, at + 12, header.questions as nat) {
            Err(e) => Err(e),
            Ok((questions, answers_at)) => match records_at(
                bytes,
                answers_at,
                header.answers as nat,
            ) {
                Err(e) => Err(e),
                Ok((answers, authorities_at)) => match records_at(
                    bytes,
                    authorities_at,
                    header.authoritative_entries as nat,
                ) {
                    Err(e) => Err(e),
                    Ok((authorities, resources_at)) => match records_at(
                        bytes,
                        resources_at,
                        header.resource_entries as nat,
                    ) {
                        Err(e) => Err(e),
                        Ok((resources, end)) => Ok(
                            (
                                PacketView { header, questions, answers, authorities, resources },
                                end,
                            ),
                        ),
                    },
                },
            },
        }
    }
}

/// The record names a server for a zone that `qname` lies in.
pub open spec fn delegates(record: RecordView, qname: Seq<char>) -> bool {
    record matches RecordView::NS { domain, .. } && name_ends_with(qname, domain)
}

/// The record gives an address for `host`.
pub open spec fn is_glue(record: RecordView, host: Seq<char>) -> bool {
    record matches RecordView::A { domain, .. } && domain == host
}

/// The address that the first address record for `host` gives.
pub open spec fn glue_for(resources: Seq<RecordView>, host: Seq<char>) -> Option<Ipv4>
    decreases resources.len(),
{
    if resources.len() == 0 {
        None
    } else if is_glue(resources[0], host) {
        Some(resources[0]->A_addr)
    } else {
        glue_for(resources.drop_first(), host)
    }
}

/// The address of a server to ask next about `qname`: that of the first
/// server, in the order of the authority section, which is named for a zone
/// that `qname` lies in and whose address stands among the additional
/// records.
pub open spec fn resolved_ns(
    authorities: Seq<RecordView>,
    resources: Seq<RecordView>,
    qname: Seq<char>,
) -> Option<Ipv4>
    decreases authorities.len(),
{
    if authorities.len() == 0 {
        None
    } else if delegates(authorities[0], qname) && glue_for(resources, authorities[0]->NS_host)
        is Some {
        glue_for(resources, authorities[0]->NS_host)
    } else {
        resolved_ns(authorities.drop_first(), resources, qname)
    }
}

/// The names of the servers that the authority section names for a zone
/// that `qname` lies in, in the order of the section.
pub open spec fn unresolved_hosts(authorities: Seq<RecordView>, qname: Seq<char>) -> Seq<Seq<char>>
    decreases authorities.len(),
{
    if authorities.len() == 0 {
        Seq::empty()
    } else if delegates(authorities.last(), qname) {
        unresolved_hosts(authorities.drop_last(), qname).push(authorities.last()->NS_host)
    } else {
        unresolved_hosts(authorities.drop_last(), qname)
    }
}

/// The addresses that the address records among `answers` give, in the
/// order of the answers.
pub open spec fn a_addrs(answers: Seq<RecordView>) -> Seq<Ipv4>
    decreases answers.len(),
{
    if answers.len() == 0 {
        Seq::empty()
    } else if answers.last() is A {
        a_addrs(answers.drop_last()).push(answers.last()->A_addr)
    } else {
        a_addrs(answers.drop_last())
    }
}

/// There is an address record among `answers`.
pub open spec fn holds_a(answers: Seq<RecordView>) -> bool {
    exists|k: int| 0 <= k < answers.len() && (#[trigger] answers[k]) is A
}

/// An address record among `answers` gives `addr`.
pub open spec fn gives_addr(answers: Seq<RecordView>, addr: Ipv4) -> bool {
    exists|k: int|
        0 <= k < answers.len() && (#[trigger] answers[k]) is A && answers[k]->A_addr == addr
}

/// The text of the address chosen by `choice` among those that the address
/// records of `answers` give, counted round and round. There is none
/// exactly where no answer is an address record.
pub open spec fn chosen_a(answers: Seq<RecordView>, choice: int) -> Option<Seq<char>> {
    let addrs = a_addrs(answers);
    if addrs.len() > 0 {
        Some(dotted_quad(addrs[choice % addrs.len() as int]))
    } else {
        None
    }
}

/// The addresses of the address records are those that address records
/// give, and there are some exactly where there is an address record.
pub proof fn lemma_a_addrs(answers: Seq<RecordView>)
    ensures
        a_addrs(answers).len() > 0 <==> holds_a(answers),
        forall|i: int|
            0 <= i < a_addrs(answers).len() ==> gives_addr(answers, #[trigger] a_addrs(answers)[i]),
        forall|k: int|
            0 <= k < answers.len() && (#[trigger] answers[k]) is A ==> a_addrs(answers).contains(
                answers[k]->A_addr,
            ),
    decreases answers.len(),
{
    if answers.len() > 0 {
        let front = answers.drop_last();
        let last = answers.len() - 1;
        lemma_a_addrs(front);
        let addrs = a_addrs(answers);
        assert forall|i: int| 0 <= i < addrs.len() implies gives_addr(
            answers,
            #[trigger] addrs[i],
        ) by {
            if i < a_addrs(front).len() {
                assert(gives_addr(front, a_addrs(front)[i]));
                let k = choose|k: int|
                    0 <= k < front.len() && (#[trigger] front[k]) is A && front[k]->A_addr
                        == a_addrs(front)[i];
                assert(answers[k] == front[k]);
            } else {
                assert(answers[last] is A && answers[last]->A_addr == addrs[i]);
            }
        }
        assert forall|k: int|
            0 <= k < answers.len() && (#[trigger] answers[k]) is A implies addrs.contains(
            answers[k]->A_addr,
        ) by {
            if k < last {
                assert(front[k] == answers[k]);
                let i = choose|i: int|
                    0 <= i < a_addrs(front).len() && a_addrs(front)[i] == front[k]->A_addr;
                assert(addrs[i] == answers[k]->A_addr);
            } else {
                assert(addrs[addrs.len() - 1] == answers[k]->A_addr);
            }
        }
        if holds_a(front) {
            let k = choose|k: int| 0 <= k < front.len() && (#[trigger] front[k]) is A;
            assert(answers[k] == front[k]);
        }
        if holds_a(answers) && !(answers[last] is A) {
            let k = choose|k: int| 0 <= k < answers.len() && (#[trigger] answers[k]) is A;
            assert(front[k] == answers[k]);
        }
    }
}

/// The name of the server chosen by `choice` among those that the authority
/// section names for `qname`, counted round and round.
pub open spec fn chosen_host(authorities: Seq<RecordView>, qname: Seq<char>, choice: int) -> Option<
    Seq<char>,
> {
    let hosts = unresolved_hosts(authorities, qname);
    if hosts.len() > 0 {
        Some(hosts[choice % hosts.len() as int])
    } else {
        None
    }
}

/// A text that may be missing, as what it says.
pub open spec fn text_of(text: Option<String>) -> Option<Seq<char>> {
    match text {
        Some(t) => Some(t@),
        None => None,
    }
}

/// Calls `rand::random`, which draws a number from the generator of the
/// running thread. Nothing is claimed of the number.
#[verifier::external_body]
pub(crate) fn random_choice() -> usize {
    rand::random::<usize>()
}

/// Reads `count` records, one behind the other.
fn read_records(buffer: &mut BytePacketBuffer, count: u16) -> (records: Result<
    Vec<DnsRecord>,
    CodecError,
>)
    ensures
        final(buffer).buf == old(buffer).buf,
        old(buffer).wf() ==> final(buffer).wf(),
        match records {
            Ok(rs) => records_at(old(buffer).buf@, old(buffer).pos as int, count as nat) == found(
                record_views(rs@),
                final(buffer).pos as int,
            ),
            Err(e) => {
                &&& records_at(old(buffer).buf@, old(buffer).pos as int, count as nat) matches Err(
                    why,
                )
                &&& why == e
            },
        },
{
    let ghost bytes = buffer.buf@;
    let ghost start = buffer.pos as int;
    let mut records: Vec<DnsRecord> = Vec::new();
    let mut i: u16 = 0;
    assert(record_views(records@) =~= Seq::empty());
    while i < count
        invariant
            i <= count,
            old(buffer).wf() ==> buffer.wf(),
            buffer.buf@ == bytes,
            buffer.buf == old(buffer).buf,
            bytes == old(buffer).buf@,
            start == old(buffer).pos,
            records@.len() == i,
            records_at(bytes, start, count as nat) == (match records_at(
                bytes,
                buffer.pos as int,
                (count - i) as nat,
            ) {
                Ok((rest, end)) => Ok((record_views(records@) + rest, end)),
                Err(e) => Err(e),
            }),
        decreases count - i,
    {
        let ghost before = record_views(records@);
        let record = DnsRecord::read(buffer)?;
        proof {
            assert forall|rest: Seq<RecordView>| before + (seq![record@] + rest)
                =~= #[trigger] (before.push(record@) + rest) by {}
        }
        records.push(record);
        assert(record_views(records@) =~= before.push(record@));
        i += 1;
    }
    assert(record_views(records@) + Seq::<RecordView>::empty() =~= record_views(records@));
    Ok(records)
}

/// Reads `count` questions, one behind the other.
fn read_questions(buffer: &mut BytePacketBuffer, count: u16) -> (questions: Result<
    Vec<DnsQuestion>,
    CodecError,
>)
    ensures
        final(buffer).buf == old(buffer).buf,
        old(buffer).wf() ==> final(buffer).wf(),
        match questions {
            Ok(qs) => questions_at(old(buffer).buf@, old(buffer).pos as int, count as nat) == found(
                question_views(qs@),
                final(buffer).pos as int,
            ),
            Err(e) => {
                &&& questions_at(
                    old(buffer).buf@,
                    old(buffer).pos as int,
                    count as nat,
                ) matches Err(why)
                &&& why == e
            },
        },
{
    let ghost bytes = buffer.buf@;
    let ghost start = buffer.pos as int;
    let mut questions: Vec<DnsQuestion> = Vec::new();
    let mut i: u16 = 0;
    assert(question_views(questions@) =~= Seq::empty());
    while i < count
        invariant
            i <= count,
            old(buffer).wf() ==> buffer.wf(),
            buffer.buf@ == bytes,
            buffer.buf == old(buffer).buf,
            bytes == old(buffer).buf@,
            start == old(buffer).pos,
            questions@.len() == i,
            questions_at(bytes, start, count as nat) == (match questions_at(
                bytes,
                buffer.pos as int,
                (count - i) as nat,
            ) {
                Ok((rest, end)) => Ok((question_views(questions@) + rest, end)),
                Err(e) => Err(e),
            }),
        decreases count - i,
    {
        let ghost before = question_views(questions@);
        let ghost at = buffer.pos as int;
        let mut question = DnsQuestion::new(String::new(), QueryType::UNKNOWN(0));
        question.read(buffer)?;
        proof {
            let read = question_at(bytes, at)->Ok_0.0;
            assert(question.name@ =~= read.name);
            assert(question@ == read);
            assert forall|rest: Seq<QuestionView>| before + (seq![question@] + rest)
                =~= #[trigger] (before.push(question@) + rest) by {}
        }
        questions.push(question);
        assert(question_views(questions@) =~= before.push(question@));
        i += 1;
    }
    assert(question_views(questions@) + Seq::<QuestionView>::empty() =~= question_views(
        questions@,
    ));
    Ok(questions)
}

/// Writes records, one behind the other.
fn write_records(records: &Vec<DnsRecord>, buffer: &mut BytePacketBuffer) -> (done: Result<
    (),
    CodecError,
>)
    requires
        old(buffer).wf(),
    ensures
        final(buffer).wf(),
        match done {
            Ok(()) => records_error(record_views(records@), old(buffer).pos as int) is None
                && final(buffer).pos == old(buffer).pos + records_wire(record_views(records@)).len()
                && final(buffer).buf@ == splice(
                old(buffer).buf@,
                old(buffer).pos as int,
                records_wire(record_views(records@)),
            ),
            Err(e) => records_error(record_views(records@), old(buffer).pos as int) == Some(e),
        },
{
    let ghost all = record_views(records@);
    let ghost base = buffer.buf@;
    let ghost origin = buffer.pos as int;
    let ghost written: Seq<u8> = Seq::empty();
    let mut i: usize = 0;
    proof {
        lemma_splice_nothing(base, origin);
        assert(all.subrange(0, all.len() as int) =~= all);
        assert(written + records_wire(all) =~= records_wire(all));
    }
    while i < records.len()
        invariant
            i <= records@.len(),
            all == record_views(records@),
            base == old(buffer).buf@,
            origin == old(buffer).pos,
            buffer.wf(),
            buffer.pos == origin + written.len(),
            buffer.buf@ == splice(base, origin, written),
            written + records_wire(all.subrange(i as int, all.len() as int)) == records_wire(all),
            records_error(all, origin) == records_error(
                all.subrange(i as int, all.len() as int),
                buffer.pos as int,
            ),
        decreases records@.len() - i,
    {
        let ghost rest = all.subrange(i as int, all.len() as int);
        let ghost one = record_wire(records@[i as int]@);
        proof {
            assert(rest[0] == records@[i as int]@);
            assert(rest.drop_first() =~= all.subrange(i + 1, all.len() as int));
            assert(written + (one + records_wire(rest.drop_first())) =~= written + one
                + records_wire(rest.drop_first()));
        }
        let _ = records[i].write(buffer)?;
        proof {
            lemma_splice_twice(base, origin, written, one);
            written = written + one;
        }
        i += 1;
    }
    assert(all.subrange(i as int, all.len() as int) =~= Seq::<RecordView>::empty());
    assert(written + Seq::<u8>::empty() =~= written);
    Ok(())
}

/// Writes questions, one behind the other.
fn write_questions(questions: &Vec<DnsQuestion>, buffer: &mut BytePacketBuffer) -> (done: Result<
    (),
    CodecError,
>)
    requires
        old(buffer).wf(),
    ensures
        final(buffer).wf(),
        match done {
            Ok(()) => questions_error(question_views(questions@), old(buffer).pos as int) is None
                && final(buffer).pos == old(buffer).pos + questions_wire(
                question_views(questions@),
            ).len() && final(buffer).buf@ == splice(
                old(buffer).buf@,
                old(buffer).pos as int,
                questions_wire(question_views(questions@)),
            ),
            Err(e) => questions_error(question_views(questions@), old(buffer).pos as int) == Some(
                e,
            ),
        },
{
    let ghost all = question_views(questions@);
    let ghost base = buffer.buf@;
    let ghost origin = buffer.pos as int;
    let ghost written: Seq<u8> = Seq::empty();
    let mut i: usize = 0;
    proof {
        lemma_splice_nothing(base, origin);
        assert(all.subrange(0, all.len() as int) =~= all);
        assert(written + questions_wire(all) =~= questions_wire(all));
    }
    while i < questions.len()
        invariant
            i <= questions@.len(),
            all == question_views(questions@),
            base == old(buffer).buf@,
            origin == old(buffer).pos,
            buffer.wf(),
            buffer.pos == origin + written.len(),
            buffer.buf@ == splice(base, origin, written),
            written + questions_wire(all.subrange(i as int, all.len() as int)) == questions_wire(
                all,
            ),
            questions_error(all, origin) == questions_error(
                all.subrange(i as int, all.len() as int),
                buffer.pos as int,
            ),
        decreases questions@.len() - i,
    {
        let ghost rest = all.subrange(i as int, all.len() as int);
        let ghost one = question_wire(questions@[i as int]@);
        proof {
            assert(rest[0] == questions@[i as int]@);
            assert(rest.drop_first() =~= all.subrange(i + 1, all.len() as int));
            assert(written + (one + questions_wire(rest.drop_first())) =~= written + one
                + questions_wire(rest.drop_first()));
        }
        questions[i].write(buffer)?;
        proof {
            lemma_splice_twice(base, origin, written, one);
            written = written + one;
        }
        i += 1;
    }
    assert(all.subrange(i as int, all.len() as int) =~= Seq::<QuestionView>::empty());
    assert(written + Seq::<u8>::empty() =~= written);
    Ok(())
}

impl DnsPacket {
    /// A message with a header of zeros and nothing in its sections.
    pub fn new() -> (packet: DnsPacket)
        ensures
            packet.header == DnsHeader::new_spec(),
            packet.questions@.len() == 0,
            packet.answers@.len() == 0,
            packet.authorities@.len() == 0,
            packet.resources@.len() == 0,
    {
        DnsPacket {
            header: DnsHeader::new(),
            questions: Vec::new(),
            answers: Vec::new(),
            authorities: Vec::new(),
            resources: Vec::new(),
        }
    }

    fn read_sections(buffer: &mut BytePacketBuffer) -> (packet: Result<DnsPacket, CodecError>)
        ensures
            final(buffer).buf == old(buffer).buf,
            old(buffer).wf() ==> final(buffer).wf(),
            match packet {
                Ok(p) => packet_at(old(buffer).buf@, old(buffer).pos as int) == found(
                    p@,
                    final(buffer).pos as int,
                ),
                Err(e) => packet_at(old(buffer).buf@, old(buffer).pos as int) matches Err(why)
                    && why == e,
            },
    {
        let mut header = DnsHeader::new();
        header.read(buffer)?;
        let questions = read_questions(buffer, header.questions)?;
        let answers = read_records(buffer, header.answers)?;
        let authorities = read_records(buffer, header.authoritative_entries)?;
        let resources = read_records(buffer, header.resource_entries)?;
        Ok(DnsPacket { header, questions, answers, authorities, resources })
    }

    /// Reads the message under the cursor and moves the cursor past it.
    /// Where no message can be read, the cursor stays.
    pub fn from_buffer(buffer: &mut BytePacketBuffer) -> (packet: Result<DnsPacket, CodecError>)
        ensures
            final(buffer).buf == old(buffer).buf,
            old(buffer).wf() ==> final(buffer).wf(),
            match packet {
                Ok(p) => packet_at(old(buffer).buf@, old(buffer).pos as int) == found(
                    p@,
                    final(buffer).pos as int,
                ),
                Err(e) => packet_at(old(buffer).buf@, old(buffer).pos as int) matches Err(why)
                    && why == e && final(buffer).pos == old(buffer).pos,
            },
    {
        let start = buffer.pos;
        let packet = Self::read_sections(buffer);
        if packet.is_err() {
            buffer.pos = start;
        }
        packet
    }

    fn write_sections(&self, buffer: &mut BytePacketBuffer) -> (done: Result<(), CodecError>)
        requires
            self.header == with_counts(self@),
        ensures
            old(buffer).wf() && done is Ok ==> final(buffer).wf(),
            match done {
                Ok(()) => {
                    &&& old(buffer).pos + 12 <= BUFFER_SIZE
                    &&& sections_error(self@, old(buffer).pos + 12) is None
                    &&& final(buffer).pos == old(buffer).pos + packet_wire(self@).len()
                    &&& final(buffer).buf@ == splice(
                        old(buffer).buf@,
                        old(buffer).pos as int,
                        packet_wire(self@),
                    )
                },
                Err(e) => if old(buffer).pos + 12 > BUFFER_SIZE {
                    e == CodecError::EndOfBuffer
                } else {
                    sections_error(self@, old(buffer).pos + 12) == Some(e)
                },
            },
    {
        let ghost base = buffer.buf@;
        let ghost origin = buffer.pos as int;
        let ghost w0 = header_wire(self.header);
        let ghost w1 = w0 + questions_wire(self@.questions);
        let ghost w2 = w1 + records_wire(self@.answers);
        let ghost w3 = w2 + records_wire(self@.authorities);
        self.header.write(buffer)?;
        write_questions(&self.questions, buffer)?;
        proof {
            lemma_splice_twice(base, origin, w0, questions_wire(self@.questions));
        }
        write_records(&self.answers, buffer)?;
        proof {
            lemma_splice_twice(base, origin, w1, records_wire(self@.answers));
        }
        write_records(&self.authorities, buffer)?;
        proof {
            lemma_splice_twice(base, origin, w2, records_wire(self@.authorities));
        }
        write_records(&self.resources, buffer)?;
        proof {
            lemma_splice_twice(base, origin, w3, records_wire(self@.resources));
        }
        Ok(())
    }

    /// Sets the header's counts to the lengths of the sections and writes
    /// the message under the cursor. Where a section is too long for its
    /// count, nothing changes at all; where the message cannot be written
    /// for another reason, the counts are set and the buffer stays as it
    /// was.
    pub fn write(&mut self, buffer: &mut BytePacketBuffer) -> (done: Result<(), CodecError>)
        ensures
            old(buffer).wf() ==> final(buffer).wf(),
            final(self).questions == old(self).questions,
            final(self).answers == old(self).answers,
            final(self).authorities == old(self).authorities,
            final(self).resources == old(self).resources,
            final(self).header == if counts_fit(old(self)@) {
                with_counts(old(self)@)
            } else {
                old(self).header
            },
            done is Ok ==> {
                &&& final(self).header.questions == final(self).questions@.len()
                &&& final(self).header.answers == final(self).answers@.len()
                &&& final(self).header.authoritative_entries == final(self).authorities@.len()
                &&& final(self).header.resource_entries == final(self).resources@.len()
            },
            match done {
                Ok(()) => {
                    &&& packet_error(old(self)@, old(buffer).pos as int) is None
                    &&& final(buffer).pos == old(buffer).pos + packet_wire(old(self)@).len()
                    &&& final(buffer).buf@ == splice(
                        old(buffer).buf@,
                        old(buffer).pos as int,
                        packet_wire(old(self)@),
                    )
                },
                Err(e) => {
                    &&& packet_error(old(self)@, old(buffer).pos as int) == Some(e)
                    &&& *final(buffer) == *old(buffer)
                },
            },
    {
        if self.questions.len() > 0xFFFF || self.answers.len() > 0xFFFF || self.authorities.len()
            > 0xFFFF || self.resources.len() > 0xFFFF {
            return Err(CodecError::TooManyRecords);
        }
        self.header.questions = self.questions.len() as u16;
        self.header.answers = self.answers.len() as u16;
        self.header.authoritative_entries = self.authorities.len() as u16;
        self.header.resource_entries = self.resources.len() as u16;
        let saved = *buffer;
        match self.write_sections(buffer) {
            Ok(()) => Ok(()),
            Err(e) => {
                *buffer = saved;
                Err(e)
            },
        }
    }

    /// The address chosen by `choice` among those that the address records
    /// of the answers give, as text. There is none exactly where no answer
    /// is an address record.
    pub fn pick_a(&self, choice: usize) -> (addr: Option<String>)
        ensures
            text_of(addr) == chosen_a(self@.answers, choice as int),
    {
        let ghost answers = self@.answers;
        let mut found: Vec<usize> = Vec::new();
        let mut i: usize = 0;
        assert(answers.subrange(0, 0) =~= Seq::empty());
        while i < self.answers.len()
            invariant
                i <= self.answers@.len(),
                answers == self@.answers,
                found@.len() == a_addrs(answers.subrange(0, i as int)).len(),
                forall|k: int|
                    0 <= k < found@.len() ==> {
                        &&& (#[trigger] found@[k]) < i
                        &&& answers[found@[k] as int] is A
                        &&& answers[found@[k] as int]->A_addr == a_addrs(
                            answers.subrange(0, i as int),
                        )[k]
                    },
            decreases self.answers@.len() - i,
        {
            let ghost seen = answers.subrange(0, i + 1);
            assert(seen.last() == self.answers@[i as int]@);
            assert(seen.drop_last() =~= answers.subrange(0, i as int));
            match &self.answers[i] {
                DnsRecord::A { .. } => {
                    found.push(i);
                },
                _ => {},
            }
            i += 1;
        }
        assert(answers.subrange(0, i as int) =~= answers);
        if found.len() == 0 {
            return None;
        }
        let idx = found[choice % found.len()];
        match &self.answers[idx] {
            DnsRecord::A { addr, .. } => Some(addr.to_string()),
            _ => None,
        }
    }

    /// The address that one of the address records among the answers gives,
    /// as text. Which of them is left to chance; there is none exactly where
    /// no answer is an address record.
    pub fn get_random_a(&self) -> (addr: Option<String>)
        ensures
            exists|choice: int| text_of(addr) == #[trigger] chosen_a(self@.answers, choice),
            addr is Some <==> holds_a(self@.answers),
            addr matches Some(text) ==> exists|k: int|
                0 <= k < self@.answers.len() && (#[trigger] self@.answers[k]) is A && text@
                    == dotted_quad(self@.answers[k]->A_addr),
    {
        let choice = random_choice();
        proof {
            let addrs = a_addrs(self@.answers);
            lemma_a_addrs(self@.answers);
            if addrs.len() > 0 {
                assert(gives_addr(self@.answers, addrs[choice as int % addrs.len() as int]));
            }
        }
        self.pick_a(choice)
    }

    /// The address, as text, of the first server that the authority section
    /// names for a zone that `qname` lies in and whose address stands among
    /// the additional records.
    pub fn get_resolved_ns(&self, qname: &str) -> (ns: Option<String>)
        ensures
            match ns {
                Some(text) => resolved_ns(self@.authorities, self@.resources, qname@) matches Some(
                    ip,
                ) && text@ == dotted_quad(ip),
                None => resolved_ns(self@.authorities, self@.resources, qname@) is None,
            },
    {
        let ghost authorities = self@.authorities;
        let ghost resources = self@.resources;
        let mut i: usize = 0;
        assert(authorities.subrange(0, authorities.len() as int) =~= authorities);
        while i < self.authorities.len()
            invariant
                i <= self.authorities@.len(),
                authorities == self@.authorities,
                resources == self@.resources,
                resolved_ns(authorities, resources, qname@) == resolved_ns(
                    authorities.subrange(i as int, authorities.len() as int),
                    resources,
                    qname@,
                ),
            decreases self.authorities@.len() - i,
        {
            let ghost rest = authorities.subrange(i as int, authorities.len() as int);
            assert(rest[0] == self.authorities@[i as int]@);
            assert(rest.drop_first() =~= authorities.subrange(i + 1, authorities.len() as int));
            match &self.authorities[i] {
                DnsRecord::NS { domain, host, .. } => {
                    if ends_with(qname, domain.as_str()) {
                        let mut j: usize = 0;
                        assert(resources.subrange(0, resources.len() as int) =~= resources);
                        while j < self.resources.len()
                            invariant
                                j <= self.resources@.len(),
                                i < self.authorities@.len(),
                                authorities == self@.authorities,
                                resources == self@.resources,
                                rest == authorities.subrange(i as int, authorities.len() as int),
                                rest[0] == self.authorities@[i as int]@,
                                rest[0] is NS,
                                rest[0]->NS_host == host@,
                                delegates(rest[0], qname@),
                                resolved_ns(authorities, resources, qname@) == resolved_ns(
                                    rest,
                                    resources,
                                    qname@,
                                ),
                                glue_for(resources, host@) == glue_for(
                                    resources.subrange(j as int, resources.len() as int),
                                    host@,
                                ),
                            decreases self.resources@.len() - j,
                        {
                            let ghost left = resources.subrange(j as int, resources.len() as int);
                            assert(left[0] == self.resources@[j as int]@);
                            assert(left.drop_first() =~= resources.subrange(
                                j + 1,
                                resources.len() as int,
                            ));
                            match &self.resources[j] {
                                DnsRecord::A { domain: owner, addr, .. } => {
                                    if *owner == *host {
                                        return Some(addr.to_string());
                                    }
                                },
                                _ => {},
                            }
                            j += 1;
                        }
                        assert(resources.subrange(j as int, resources.len() as int)
                            =~= Seq::<RecordView>::empty());
                    }
                },
                _ => {},
            }
            i += 1;
        }
        None
    }

    /// The name of the server chosen by `choice` among those that the
    /// authority section names for a zone that `qname` lies in.
    pub fn pick_unresolved_ns(&self, qname: &str, choice: usize) -> (host: Option<String>)
        ensures
            text_of(host) == chosen_host(self@.authorities, qname@, choice as int),
    {
        let ghost authorities = self@.authorities;
        let mut found: Vec<usize> = Vec::new();
        let mut i: usize = 0;
        assert(authorities.subrange(0, 0) =~= Seq::empty());
        while i < self.authorities.len()
            invariant
                i <= self.authorities@.len(),
                authorities == self@.authorities,
                found@.len() == unresolved_hosts(authorities.subrange(0, i as int), qname@).len(),
                forall|k: int|
                    0 <= k < found@.len() ==> {
                        &&& (#[trigger] found@[k]) < i
                        &&& authorities[found@[k] as int] is NS
                        &&& authorities[found@[k] as int]->NS_host == unresolved_hosts(
                            authorities.subrange(0, i as int),
                            qname@,
                        )[k]
                    },
            decreases self.authorities@.len() - i,
        {
            let ghost seen = authorities.subrange(0, i + 1);
            assert(seen.last() == self.authorities@[i as int]@);
            assert(seen.drop_last() =~= authorities.subrange(0, i as int));
            match &self.authorities[i] {
                DnsRecord::NS { domain, .. } => {
                    if ends_with(qname, domain.as_str()) {
                        found.push(i);
                    }
                },
                _ => {},
            }
            i += 1;
        }
        assert(authorities.subrange(0, i as int) =~= authorities);
        if found.len() == 0 {
            return None;
        }
        let idx = found[choice % found.len()];
        match &self.authorities[idx] {
            DnsRecord::NS { host, .. } => Some(host.clone()),
            _ => None,
        }
    }

    /// The name of one of the servers that the authority section names for
    /// a zone that `qname` lies in. Which of them is left to chance; there
    /// is none exactly where the section names none.
    pub fn get_unresolved_ns(&self, qname: &str) -> (host: Option<String>)
        ensures
            exists|choice: int|
                text_of(host) == #[trigger] chosen_host(self@.authorities, qname@, choice),
    {
        let choice = random_choice();
        self.pick_unresolved_ns(qname, choice)
    }
}

/// Every one of these questions is plain.
pub open spec fn plain_questions(questions: Seq<QuestionView>) -> bool {
    forall|i: int| 0 <= i < questions.len() ==> plain_question(#[trigger] questions[i])
}

/// Every one of these records is plain.
pub open spec fn plain_records(records: Seq<RecordView>) -> bool {
    forall|i: int| 0 <= i < records.len() ==> plain_record(#[trigger] records[i])
}

/// A message that a reader gives back as it was written, but for the
/// counts, which the writer sets: its opcode has four bits, no section is
/// too long for its count, and its questions and records are plain.
pub open spec fn plain_packet(p: PacketView) -> bool {
    &&& p.header.opcode < 16
    &&& counts_fit(p)
    &&& plain_questions(p.questions)
    &&& plain_records(p.answers)
    &&& plain_records(p.authorities)
    &&& plain_records(p.resources)
}

/// Plain questions that were written are the questions that are read at the
/// same place, and the reader then stands behind them.
pub proof fn lemma_questions_round_trip(bytes: Seq<u8>, at: int, questions: Seq<QuestionView>)
    requires
        plain_questions(questions),
        holds_at(bytes, at, questions_wire(questions)),
    ensures
        questions_at(bytes, at, questions.len()) == found(
            questions,
            at + questions_wire(questions).len(),
        ),
    decreases questions.len(),
{
    if questions.len() > 0 {
        let first = question_wire(questions[0]);
        let rest = questions.drop_first();
        lemma_holds_split(bytes, at, first, questions_wire(rest));
        lemma_question_round_trip(bytes, at, questions[0]);
        assert forall|i: int| 0 <= i < rest.len() implies plain_question(#[trigger] rest[i]) by {
            assert(rest[i] == questions[i + 1]);
        }
        lemma_questions_round_trip(bytes, at + first.len(), rest);
        assert(seq![questions[0]] + rest =~= questions);
    } else {
        assert(questions =~= Seq::empty());
    }
}

/// Plain records that were written are the records that are read at the
/// same place, and the reader then stands behind them.
pub proof fn lemma_records_round_trip(bytes: Seq<u8>, at: int, records: Seq<RecordView>)
    requires
        plain_records(records),
        holds_at(bytes, at, records_wire(records)),
    ensures
        records_at(bytes, at, records.len()) == found(records, at + records_wire(records).len()),
    decreases records.len(),
{
    if records.len() > 0 {
        let first = record_wire(records[0]);
        let rest = records.drop_first();
        lemma_holds_split(bytes, at, first, records_wire(rest));
        lemma_record_round_trip(bytes, at, records[0]);
        assert forall|i: int| 0 <= i < rest.len() implies plain_record(#[trigger] rest[i]) by {
            assert(rest[i] == records[i + 1]);
        }
        lemma_records_round_trip(bytes, at + first.len(), rest);
        assert(seq![records[0]] + rest =~= records);
    } else {
        assert(records =~= Seq::empty());
    }
}

/// A plain message that was written is the message that is read at the same
/// place, its counts set to the lengths of its sections; and the reader
/// then stands behind it.
pub proof fn lemma_packet_round_trip(bytes: Seq<u8>, at: int, p: PacketView)
    requires
        plain_packet(p),
        holds_at(bytes, at, packet_wire(p)),
    ensures
        packet_at(bytes, at) == found(
            PacketView { header: with_counts(p), ..p },
            at + packet_wire(p).len(),
        ),
{
    let header = with_counts(p);
    let w0 = header_wire(header);
    let w1 = w0 + questions_wire(p.questions);
    let w2 = w1 + records_wire(p.answers);
    let w3 = w2 + records_wire(p.authorities);
    lemma_holds_split(bytes, at, w3, records_wire(p.resources));
    lemma_holds_split(bytes, at, w2, records_wire(p.authorities));
    lemma_holds_split(bytes, at, w1, records_wire(p.answers));
    lemma_holds_split(bytes, at, w0, questions_wire(p.questions));
    lemma_header_round_trip(bytes, at, header);
    assert(header_at(bytes, at) == header);
    assert(header.questions as nat == p.questions.len());
    assert(header.answers as nat == p.answers.len());
    assert(header.authoritative_entries as nat == p.authorities.len());
    assert(header.resource_entries as nat == p.resources.len());
    let questions_end = at + 12 + questions_wire(p.questions).len();
    let answers_end = questions_end + records_wire(p.answers).len();
    let authorities_end = answers_end + records_wire(p.authorities).len();
    lemma_questions_round_trip(bytes, at + 12, p.questions);
    lemma_records_round_trip(bytes, questions_end, p.answers);
    lemma_records_round_trip(bytes, answers_end, p.authorities);
    lemma_records_round_trip(bytes, authorities_end, p.resources);
}

/// A plain message that was written into a buffer is read from it as it
/// was, its counts set to the lengths of its sections; and the reader then
/// stands behind it.
pub proof fn lemma_written_packet_is_read(bytes: Seq<u8>, at: int, p: PacketView)
    requires
        plain_packet(p),
        0 <= at,
        at + packet_wire(p).len() <= bytes.len(),
    ensures
        packet_at(splice(bytes, at, packet_wire(p)), at) == found(
            PacketView { header: with_counts(p), ..p },
            at + packet_wire(p).len(),
        ),
{
    lemma_splice_holds(bytes, at, packet_wire(p));
    lemma_packet_round_trip(splice(bytes, at, packet_wire(p)), at, p);
}

} // verus!
