//! The messages that a recursive server sends: its queries to other servers,
//! and its responses.

use crate::dns_packet::DnsPacket;
use crate::header::DnsHeader;
use crate::opcodes::ResultCode;
use crate::qtype::QueryType;
use crate::questions::DnsQuestion;
use vstd::prelude::*;

verus! {

/// The result code of the response to `request`, where `outcome` is what
/// resolving its first question gave, if that was tried and gave anything:
/// a request without a question is malformed, and a resolution that gave
/// nothing is the server's failure.
pub open spec fn response_code(request: DnsPacket, outcome: Option<DnsPacket>) -> ResultCode {
    if request.questions@.len() == 0 {
        ResultCode::FORMERR
    } else {
        match outcome {
            Some(result) => result.header.rescode,
            None => ResultCode::SERVFAIL,
        }
    }
}

/// The query to send to a server for `qname` and `qtype`: one question,
/// with recursion asked for, under the identifier `id`.
pub fn lookup_request(id: u16, qname: &str, qtype: QueryType) -> (request: DnsPacket)
    ensures
        request.header == (DnsHeader {
            id,
            questions: 1,
            recursion_desired: true,
            ..DnsHeader::new_spec()
        }),
        request.questions@.len() == 1,
        request.questions@[0].name@ == qname@,
        request.questions@[0].qtype == qtype,
        request.answers@.len() == 0,
        request.authorities@.len() == 0,
        request.resources@.len() == 0,
{
    let mut packet = DnsPacket::new();
    packet.header.id = id;
    packet.header.questions = 1;
    packet.header.recursion_desired = true;
    packet.questions.push(DnsQuestion::new(qname.to_owned(), qtype));
    packet
}

/// Whether `reply` bears the identifier `id`, as the reply to a query sent
/// under `id` does.
pub fn answers_request(reply: &DnsPacket, id: u16) -> (yes: bool)
    ensures
        yes == (reply.header.id == id),
{
    reply.header.id == id
}

/// The response to `request`, where `outcome` is what resolving its first
/// question gave. The response bears the identifier of the request and
/// offers recursion. Where the request holds a question and the resolution
/// gave a message, the response repeats the question and takes over the
/// result code and the three sections of records from that message; else
/// its sections are empty.
pub fn respond(request: &DnsPacket, outcome: Option<DnsPacket>) -> (response: DnsPacket)
    ensures
        response.header == (DnsHeader {
            id: request.header.id,
            recursion_desired: true,
            recursion_available: true,
            response: true,
            rescode: response_code(*request, outcome),
            ..DnsHeader::new_spec()
        }),
        match outcome {
            Some(result) if request.questions@.len() > 0 => {
                &&& response.questions@.len() == 1
                &&& response.questions@[0]@ == request.questions@[0]@
                &&& response.answers == result.answers
                &&& response.authorities == result.authorities
                &&& response.resources == result.resources
            },
            _ => {
                &&& response.questions@.len() == 0
                &&& response.answers@.len() == 0
                &&& response.authorities@.len() == 0
                &&& response.resources@.len() == 0
            },
        },
{
    let mut packet = DnsPacket::new();
    packet.header.id = request.header.id;
    packet.header.recursion_desired = true;
    packet.header.recursion_available = true;
    packet.header.response = true;
    if request.questions.len() == 0 {
        packet.header.rescode = ResultCode::FORMERR;
        return packet;
    }
    match outcome {
        Some(result) => {
            let question = &request.questions[0];
            packet.questions.push(DnsQuestion::new(question.name.clone(), question.qtype));
            packet.header.rescode = result.header.rescode;
            packet.answers = result.answers;
            packet.authorities = result.authorities;
            packet.resources = result.resources;
        },
        None => {
            packet.header.rescode = ResultCode::SERVFAIL;
        },
    }
    packet
}

} // verus!
