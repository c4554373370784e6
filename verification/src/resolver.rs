//! The walk from a root server down to the servers that know a name, as a
//! sequence of decisions: each takes a reply and says which query to send
//! next, or that the walk has ended.

use crate::address::{dotted_quad, Ipv4};
use crate::dns_packet::{
    a_addrs, chosen_a, chosen_host, gives_addr, holds_a, lemma_a_addrs, random_choice,
    resolved_ns, unresolved_hosts, DnsPacket, PacketView,
};
use crate::opcodes::ResultCode;
use crate::qtype::QueryType;
use vstd::prelude::*;

verus! {

/// How many queries one lookup may send.
pub const MAX_ITERATIONS: usize = 16;

/// How many lookups may be under way at once, one for the sake of the other.
pub const MAX_DEPTH: usize = 8;

/// The address of the root server that every lookup starts at.
pub open spec fn root_server() -> Ipv4 {
    Ipv4(198, 41, 0, 4)
}

/// The address of the root server, as text.
fn root_text() -> (text: String)
    ensures
        text@ == dotted_quad(root_server()),
{
    Ipv4(198, 41, 0, 4).to_string()
}

/// What a reply means for the lookup that it came for.
#[derive(Debug, PartialEq, Eq)]
pub enum Verdict {
    /// The reply settles the lookup: it answers, or it says that the name
    /// does not exist.
    Final,
    /// The reply refers to a server whose address it gives.
    Glue(String),
    /// The reply refers to a server that it only names.
    Host(String),
    /// The reply leads no further.
    Stuck,
}

/// A verdict, its texts as what they say.
pub enum VerdictView {
    Final,
    Glue(Seq<char>),
    Host(Seq<char>),
    Stuck,
}

impl View for Verdict {
    type V = VerdictView;

    open spec fn view(&self) -> VerdictView {
        match *self {
            Verdict::Final => VerdictView::Final,
            Verdict::Glue(addr) => VerdictView::Glue(addr@),
            Verdict::Host(host) => VerdictView::Host(host@),
            Verdict::Stuck => VerdictView::Stuck,
        }
    }
}

/// The reply settles the lookup: it holds an answer and reports no error,
/// or it reports that the name does not exist.
pub open spec fn settles(reply: PacketView) -> bool {
    ||| reply.answers.len() > 0 && reply.header.rescode == ResultCode::NOERROR
    ||| reply.header.rescode == ResultCode::NXDOMAIN
}

/// What `reply` means for a lookup of `qname`. A reply that settles the
/// lookup is final. Else a server whose address the reply gives comes before
/// one that it only names, and among those `choice` picks.
pub open spec fn verdict_of(reply: PacketView, qname: Seq<char>, choice: int) -> VerdictView {
    if settles(reply) {
        VerdictView::Final
    } else {
        match resolved_ns(reply.authorities, reply.resources, qname) {
            Some(ip) => VerdictView::Glue(dotted_quad(ip)),
            None => match chosen_host(reply.authorities, qname, choice) {
                Some(host) => VerdictView::Host(host),
                None => VerdictView::Stuck,
            },
        }
    }
}

/// Says what `reply` means for a lookup of `qname`.
pub fn judge(reply: &DnsPacket, qname: &str, choice: usize) -> (verdict: Verdict)
    ensures
        verdict@ == verdict_of(reply@, qname@, choice as int),
{
    if reply.answers.len() > 0 && reply.header.rescode == ResultCode::NOERROR {
        return Verdict::Final;
    }
    if reply.header.rescode == ResultCode::NXDOMAIN {
        return Verdict::Final;
    }
    match reply.get_resolved_ns(qname) {
        Some(addr) => Verdict::Glue(addr),
        None => match reply.pick_unresolved_ns(qname, choice) {
            Some(host) => Verdict::Host(host),
            None => Verdict::Stuck,
        },
    }
}

/// The reply refers to a server whose address it gives: the address.
pub open spec fn glue_of(reply: PacketView, qname: Seq<char>) -> Option<Ipv4> {
    if settles(reply) {
        None
    } else {
        resolved_ns(reply.authorities, reply.resources, qname)
    }
}

/// The servers that the reply only names, where it settles nothing and
/// gives the address of none.
pub open spec fn hosts_of(reply: PacketView, qname: Seq<char>) -> Seq<Seq<char>> {
    if settles(reply) || resolved_ns(reply.authorities, reply.resources, qname) is Some {
        Seq::empty()
    } else {
        unresolved_hosts(reply.authorities, qname)
    }
}

/// One lookup under way.
#[derive(Debug)]
pub struct Lookup {
    pub name: String,
    pub qtype: QueryType,
    /// The address of the server to ask.
    pub server: String,
    /// How many more queries the lookup may send.
    pub left: usize,
    /// The reply that named a server without an address, while the address
    /// of that server is looked up.
    pub referral: Option<DnsPacket>,
}

/// A query to send: for which name and type, and to which server.
#[derive(Debug, PartialEq, Eq)]
pub struct Query {
    pub name: String,
    pub qtype: QueryType,
    pub server: String,
}

/// How a step of a lookup ended.
#[derive(Debug)]
pub enum Outcome {
    /// A query is to be sent.
    Ask,
    /// The innermost lookup has ended with this message.
    Finished(DnsPacket),
}

/// The lookups that are under way obey the limits: there are at most
/// `MAX_DEPTH` of them, none may send more than `MAX_ITERATIONS` queries in
/// all, and each but the innermost holds the reply that it waits to follow.
pub open spec fn within_limits(frames: Seq<Lookup>) -> bool {
    &&& frames.len() <= MAX_DEPTH
    &&& forall|i: int|
        0 <= i < frames.len() ==> (#[trigger] frames[i]).left < MAX_ITERATIONS && (i + 1
            < frames.len() ==> frames[i].referral is Some)
}

/// The most queries that a new lookup can bring about when `depth` lookups
/// are under way already: its own, and for each of its own those of the
/// lookup that it may start in turn.
pub open spec fn span(depth: nat) -> nat
    decreases MAX_DEPTH - depth,
{
    if depth >= MAX_DEPTH {
        0
    } else {
        MAX_ITERATIONS as nat * (1 + span(depth + 1))
    }
}

/// The most queries that these lookups can still bring about once each has
/// its reply.
pub open spec fn waiting(frames: Seq<Lookup>) -> nat
    decreases frames.len(),
{
    if frames.len() == 0 {
        0
    } else {
        waiting(frames.drop_last()) + frames.last().left as nat * (1 + span(frames.len()))
    }
}

/// The most queries that are still to come: a bound that falls with every
/// query sent.
pub open spec fn budget(frames: Seq<Lookup>) -> nat {
    if frames.len() == 0 {
        0
    } else {
        waiting(frames) + span(frames.len())
    }
}

/// On `reply` the innermost lookup goes on, whatever is chosen: it may send
/// a query and the reply gives the address of a server to turn to, or it
/// names servers and a lookup for the address of one may be started.
pub open spec fn goes_on(frames: Seq<Lookup>, reply: PacketView) -> bool {
    &&& frames.len() > 0
    &&& frames.last().left > 0
    &&& glue_of(reply, frames.last().name@) is Some || (frames.len() < MAX_DEPTH && hosts_of(
        reply,
        frames.last().name@,
    ).len() > 0)
}

/// What becomes of the lookups that wait, `waiters`, when the lookup inside
/// them has ended with `ended`, whatever is chosen: `after` are the lookups
/// then under way and `result` is what the resolution has ended with, if it
/// has. The innermost waiter turns to the address of one of the address
/// records among the answers of `ended`, where there is one and the waiter
/// may send a query. Else it ends in turn, with the reply that it waited to
/// follow, and the same holds of the waiters around it; when none is left,
/// the resolution has ended.
pub open spec fn resumes(
    waiters: Seq<Lookup>,
    ended: DnsPacket,
    after: Seq<Lookup>,
    result: Option<DnsPacket>,
) -> bool
    decreases waiters.len(),
{
    if waiters.len() == 0 {
        result == Some(ended) && after.len() == 0
    } else {
        let waiter = waiters.last();
        match waiter.referral {
            None => resumes(waiters.drop_last(), ended, after, result),
            Some(referral) => if waiter.left > 0 && holds_a(ended@.answers) {
                &&& result is None
                &&& after.len() == waiters.len()
                &&& after.drop_last() == waiters.drop_last()
                &&& after.last().name == waiter.name
                &&& after.last().qtype == waiter.qtype
                &&& after.last().left == waiter.left - 1
                &&& after.last().referral is None
                &&& exists|k: int|
                    {
                        &&& 0 <= k < ended@.answers.len()
                        &&& (#[trigger] ended@.answers[k]) is A
                        &&& after.last().server@ == dotted_quad(ended@.answers[k]->A_addr)
                    }
            } else {
                resumes(waiters.drop_last(), referral, after, result)
            },
        }
    }
}

/// A resolution under way: the lookup that was asked for, and those started
/// to find the addresses of servers, innermost last.
#[derive(Debug)]
pub struct Resolver {
    stack: Vec<Lookup>,
}

impl Resolver {
    /// The lookups under way, innermost last.
    pub closed spec fn frames(&self) -> Seq<Lookup> {
        self.stack@
    }

    /// Starts to resolve `qname` at the root server. The first query is due.
    pub fn new(qname: &str, qtype: QueryType) -> (resolver: Resolver)
        ensures
            resolver.frames().len() == 1,
            resolver.frames()[0].name@ == qname@,
            resolver.frames()[0].qtype == qtype,
            resolver.frames()[0].server@ == dotted_quad(root_server()),
            resolver.frames()[0].left == MAX_ITERATIONS - 1,
            resolver.frames()[0].referral is None,
            within_limits(resolver.frames()),
            budget(resolver.frames()) == span(0) - 1,
    {
        let mut stack: Vec<Lookup> = Vec::new();
        stack.push(
            Lookup {
                name: qname.to_owned(),
                qtype,
                server: root_text(),
                left: MAX_ITERATIONS - 1,
                referral: None,
            },
        );
        proof {
            lemma_span_values();
            assert(stack@.drop_last() =~= Seq::empty());
            let left = stack@.last().left as nat;
            let unit = 1 + span(1);
            assert(left * unit == 15 * unit) by (nonlinear_arith)
                requires
                    left == 15,
            ;
            assert(stack@.len() == 1);
            assert(waiting(stack@) == waiting(stack@.drop_last()) + left * unit);
            assert(waiting(stack@.drop_last()) == 0);
        }
        Resolver { stack }
    }

    /// The query that is due: that of the innermost lookup. There is none
    /// once the resolution has ended.
    pub fn query(&self) -> (query: Option<Query>)
        ensures
            match query {
                Some(q) => self.frames().len() > 0 && q.name@ == self.frames().last().name@
                    && q.qtype == self.frames().last().qtype && q.server@
                    == self.frames().last().server@,
                None => self.frames().len() == 0,
            },
    {
        if self.stack.len() == 0 {
            return None;
        }
        let top = &self.stack[self.stack.len() - 1];
        Some(Query { name: top.name.clone(), qtype: top.qtype, server: top.server.clone() })
    }

    /// Takes the reply to the query that was due, with `choice` to pick
    /// among servers that the reply only names. The innermost lookup ends
    /// with the reply where the reply settles it or leads no further, and
    /// where a limit forbids to go on. Else the lookup turns to the server
    /// that the reply gave the address of, or a lookup for the address of
    /// the server chosen is started, and a query is due.
    pub fn on_reply_with(&mut self, reply: DnsPacket, choice: usize) -> (outcome: Outcome)
        ensures
            within_limits(old(self).frames()) ==> within_limits(final(self).frames()),
            within_limits(old(self).frames()) && outcome is Ask ==> budget(final(self).frames())
                < budget(old(self).frames()),
            old(self).frames().len() == 0 ==> {
                &&& outcome == Outcome::Finished(reply)
                &&& final(self).frames() == old(self).frames()
            },
            old(self).frames().len() > 0 ==> ({
                let before = old(self).frames();
                let after = final(self).frames();
                let top = before.last();
                match verdict_of(reply@, top.name@, choice as int) {
                    VerdictView::Glue(addr) if top.left > 0 => {
                        &&& outcome is Ask
                        &&& after.len() == before.len()
                        &&& after.drop_last() == before.drop_last()
                        &&& after.last().name == top.name
                        &&& after.last().qtype == top.qtype
                        &&& after.last().server@ == addr
                        &&& after.last().left == top.left - 1
                        &&& after.last().referral is None
                    },
                    VerdictView::Host(host) if top.left > 0 && before.len() < MAX_DEPTH => {
                        &&& outcome is Ask
                        &&& after.len() == before.len() + 1
                        &&& after.drop_last().drop_last() == before.drop_last()
                        &&& after[before.len() - 1].name == top.name
                        &&& after[before.len() - 1].qtype == top.qtype
                        &&& after[before.len() - 1].server == top.server
                        &&& after[before.len() - 1].left == top.left
                        &&& after[before.len() - 1].referral == Some(reply)
                        &&& after.last().name@ == host
                        &&& after.last().qtype == QueryType::A
                        &&& after.last().server@ == dotted_quad(root_server())
                        &&& after.last().left == MAX_ITERATIONS - 1
                        &&& after.last().referral is None
                    },
                    _ => outcome == Outcome::Finished(reply) && after == before.drop_last(),
                }
            }),
    {
        let depth = self.stack.len();
        if depth == 0 {
            return Outcome::Finished(reply);
        }
        let ghost before = self.stack@;
        let top = self.stack.pop().unwrap();
        assert(self.stack@ == before.drop_last());
        if top.left == 0 {
            return Outcome::Finished(reply);
        }
        match judge(&reply, top.name.as_str(), choice) {
            Verdict::Glue(addr) => {
                self.stack.push(
                    Lookup {
                        name: top.name,
                        qtype: top.qtype,
                        server: addr,
                        left: top.left - 1,
                        referral: None,
                    },
                );
                assert(self.stack@.drop_last() =~= before.drop_last());
                proof {
                    lemma_one_query_less(before, self.stack@);
                }
                Outcome::Ask
            },
            Verdict::Host(host) => {
                if depth >= MAX_DEPTH {
                    return Outcome::Finished(reply);
                }
                self.stack.push(
                    Lookup {
                        name: top.name,
                        qtype: top.qtype,
                        server: top.server,
                        left: top.left,
                        referral: Some(reply),
                    },
                );
                self.stack.push(
                    Lookup {
                        name: host,
                        qtype: QueryType::A,
                        server: root_text(),
                        left: MAX_ITERATIONS - 1,
                        referral: None,
                    },
                );
                assert(self.stack@.drop_last().drop_last() =~= before.drop_last());
                proof {
                    lemma_lookup_started(before, self.stack@);
                }
                Outcome::Ask
            },
            _ => Outcome::Finished(reply),
        }
    }

    /// Takes the message that a lookup for the address of a server has
    /// ended with, with `choice` to pick among the address records of its
    /// answers. The lookup that waited for the address, now the innermost,
    /// turns to the address chosen and a query is due; where no answer is
    /// an address record, or the lookup may send no more queries, it ends
    /// with the reply that it waited to follow.
    pub fn on_result_with(&mut self, result: DnsPacket, choice: usize) -> (outcome: Outcome)
        ensures
            within_limits(old(self).frames()) ==> within_limits(final(self).frames()),
            within_limits(old(self).frames()) && outcome is Ask ==> budget(final(self).frames())
                < waiting(old(self).frames()),
            old(self).frames().len() == 0 ==> {
                &&& outcome == Outcome::Finished(result)
                &&& final(self).frames() == old(self).frames()
            },
            old(self).frames().len() > 0 ==> ({
                let before = old(self).frames();
                let after = final(self).frames();
                let top = before.last();
                match (top.referral, chosen_a(result@.answers, choice as int)) {
                    (Some(_), Some(addr)) if top.left > 0 => {
                        &&& outcome is Ask
                        &&& after.len() == before.len()
                        &&& after.drop_last() == before.drop_last()
                        &&& after.last().name == top.name
                        &&& after.last().qtype == top.qtype
                        &&& after.last().server@ == addr
                        &&& after.last().left == top.left - 1
                        &&& after.last().referral is None
                    },
                    (Some(referral), _) => outcome == Outcome::Finished(referral) && after
                        == before.drop_last(),
                    (None, _) => outcome == Outcome::Finished(result) && after
                        == before.drop_last(),
                }
            }),
    {
        if self.stack.len() == 0 {
            return Outcome::Finished(result);
        }
        let ghost before = self.stack@;
        let top = self.stack.pop().unwrap();
        assert(self.stack@ == before.drop_last());
        let referral = match top.referral {
            Some(referral) => referral,
            None => {
                return Outcome::Finished(result);
            },
        };
        if top.left == 0 {
            return Outcome::Finished(referral);
        }
        match result.pick_a(choice) {
            Some(addr) => {
                self.stack.push(
                    Lookup {
                        name: top.name,
                        qtype: top.qtype,
                        server: addr,
                        left: top.left - 1,
                        referral: None,
                    },
                );
                assert(self.stack@.drop_last() =~= before.drop_last());
                proof {
                    lemma_one_query_less(before, self.stack@);
                }
                Outcome::Ask
            },
            None => Outcome::Finished(referral),
        }
    }

    /// Takes the reply to the query that was due and says how the
    /// resolution goes on: with `None` another query is due, and with a
    /// message the resolution has ended with that message. Where a choice
    /// among servers or addresses is open, chance decides. Whatever it
    /// decides, the limits are kept, and with every query that falls due
    /// the bound on the queries still to come has fallen. Where the
    /// innermost lookup ends with the reply, the lookups that wait for it
    /// go on as `resumes` says.
    pub fn on_reply(&mut self, reply: DnsPacket) -> (result: Option<DnsPacket>)
        ensures
            within_limits(old(self).frames()) ==> within_limits(final(self).frames()),
            result is Some <==> final(self).frames().len() == 0,
            old(self).frames().len() == 0 ==> result == Some(reply),
            within_limits(old(self).frames()) && result is None ==> budget(final(self).frames())
                < budget(old(self).frames()),
            old(self).frames().len() == 1 && (old(self).frames()[0].left == 0 || (glue_of(
                reply@,
                old(self).frames()[0].name@,
            ) is None && hosts_of(reply@, old(self).frames()[0].name@).len() == 0)) ==> result
                == Some(reply),
            old(self).frames().len() > 0 && old(self).frames().last().left > 0 ==> (glue_of(
                reply@,
                old(self).frames().last().name@,
            ) matches Some(ip) ==> {
                &&& result is None
                &&& final(self).frames().len() == old(self).frames().len()
                &&& final(self).frames().drop_last() == old(self).frames().drop_last()
                &&& final(self).frames().last().name == old(self).frames().last().name
                &&& final(self).frames().last().qtype == old(self).frames().last().qtype
                &&& final(self).frames().last().server@ == dotted_quad(ip)
            }),
            0 < old(self).frames().len() < MAX_DEPTH && old(self).frames().last().left > 0
                && hosts_of(reply@, old(self).frames().last().name@).len() > 0 ==> {
                &&& result is None
                &&& final(self).frames().len() == old(self).frames().len() + 1
                &&& final(self).frames().last().qtype == QueryType::A
                &&& final(self).frames().last().server@ == dotted_quad(root_server())
                &&& exists|k: int|
                    {
                        &&& 0 <= k < hosts_of(reply@, old(self).frames().last().name@).len()
                        &&& final(self).frames().last().name@ == #[trigger] hosts_of(
                            reply@,
                            old(self).frames().last().name@,
                        )[k]
                    }
            },
            old(self).frames().len() > 0 && !goes_on(old(self).frames(), reply@) ==> resumes(
                old(self).frames().drop_last(),
                reply,
                final(self).frames(),
                result,
            ),
    {
        let ghost before = self.stack@;
        let choice = random_choice();
        let mut ended = match self.on_reply_with(reply, choice) {
            Outcome::Ask => {
                proof {
                    let hosts = hosts_of(reply@, before.last().name@);
                    if hosts.len() > 0 {
                        let k = choice as int % hosts.len() as int;
                        assert(self.stack@.last().name@ == hosts[k]);
                    }
                }
                return None;
            },
            Outcome::Finished(message) => message,
        };
        proof {
            lemma_waiting_falls(before);
        }
        loop
            invariant
                before == old(self).frames(),
                !goes_on(before, reply@),
                before.len() <= 1 ==> ended == reply && self.stack@.len() == 0,
                within_limits(before) ==> within_limits(self.stack@),
                within_limits(before) ==> waiting(self.stack@) <= budget(before),
                before.len() > 0 ==> forall|after: Seq<Lookup>, result: Option<DnsPacket>|
                    #[trigger] resumes(self.stack@, ended, after, result) ==> resumes(
                        before.drop_last(),
                        reply,
                        after,
                        result,
                    ),
            decreases self.stack@.len(),
        {
            if self.stack.len() == 0 {
                assert(resumes(self.stack@, ended, self.stack@, Some(ended)));
                return Some(ended);
            }
            let ghost waiters = self.stack@;
            let ghost inner = ended;
            let choice = random_choice();
            proof {
                lemma_a_addrs(inner@.answers);
                let addrs = a_addrs(inner@.answers);
                if addrs.len() > 0 {
                    assert(gives_addr(inner@.answers, addrs[choice as int % addrs.len() as int]));
                }
            }
            match self.on_result_with(ended, choice) {
                Outcome::Ask => {
                    assert(resumes(waiters, inner, self.stack@, None));
                    return None;
                },
                Outcome::Finished(message) => {
                    ended = message;
                },
            }
            proof {
                lemma_waiting_falls(waiters);
                assert forall|after: Seq<Lookup>, result: Option<DnsPacket>| #[trigger]
                    resumes(self.stack@, ended, after, result) implies resumes(
                    before.drop_last(),
                    reply,
                    after,
                    result,
                ) by {
                    if before.len() > 0 {
                        assert(resumes(waiters, inner, after, result));
                    }
                }
            }
        }
    }
}

/// The most queries that a lookup can bring about, by the number of lookups
/// under way before it. A whole resolution sends fewer than five thousand
/// million queries, whatever the replies.
pub proof fn lemma_span_values()
    ensures
        span(8) == 0,
        span(7) == 16,
        span(6) == 272,
        span(5) == 4_368,
        span(4) == 69_904,
        span(3) == 1_118_480,
        span(2) == 17_895_696,
        span(1) == 286_331_152,
        span(0) == 4_581_298_448,
{
    assert(span(8) == 0);
    assert(span(7) == 16 * (1 + span(8)));
    assert(span(6) == 16 * (1 + span(7)));
    assert(span(5) == 16 * (1 + span(6)));
    assert(span(4) == 16 * (1 + span(5)));
    assert(span(3) == 16 * (1 + span(4)));
    assert(span(2) == 16 * (1 + span(3)));
    assert(span(1) == 16 * (1 + span(2)));
    assert(span(0) == 16 * (1 + span(1)));
}

/// A lookup that gives up one of its queries takes that query, and all that
/// it could have brought about, off the bound.
proof fn lemma_one_query_less(before: Seq<Lookup>, after: Seq<Lookup>)
    requires
        before.len() > 0,
        after.len() == before.len(),
        after.drop_last() == before.drop_last(),
        before.last().left > 0,
        after.last().left == before.last().left - 1,
    ensures
        budget(after) < waiting(before),
        budget(after) < budget(before),
{
    let unit = 1 + span(before.len());
    let left = before.last().left as nat;
    assert((left - 1) * unit == left * unit - unit) by (nonlinear_arith);
}

/// A lookup started for the sake of another takes one query off the bound.
proof fn lemma_lookup_started(before: Seq<Lookup>, after: Seq<Lookup>)
    requires
        0 < before.len() < MAX_DEPTH,
        after.len() == before.len() + 1,
        after.drop_last().drop_last() == before.drop_last(),
        after[before.len() - 1].left == before.last().left,
        after.last().left == MAX_ITERATIONS - 1,
    ensures
        budget(after) < budget(before),
{
    let parent = after.drop_last();
    assert(parent.last() == after[before.len() - 1]);
    assert(waiting(parent) == waiting(before));
    let unit = 1 + span(after.len());
    assert(span(before.len()) == MAX_ITERATIONS as nat * unit);
    assert((MAX_ITERATIONS - 1) as nat * unit == MAX_ITERATIONS as nat * unit - unit)
        by (nonlinear_arith);
}

/// Where the innermost lookup ends, those that wait can bring about no more
/// than all could before.
proof fn lemma_waiting_falls(frames: Seq<Lookup>)
    ensures
        frames.len() > 0 ==> waiting(frames.drop_last()) <= waiting(frames) <= budget(frames),
{
}

} // verus!
