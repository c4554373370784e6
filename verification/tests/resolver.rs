use dns_resolver::address::Ipv4;
use dns_resolver::dns_packet::DnsPacket;
use dns_resolver::opcodes::ResultCode;
use dns_resolver::qtype::QueryType;
use dns_resolver::questions::DnsQuestion;
use dns_resolver::record::DnsRecord;
use dns_resolver::resolver::{judge, Outcome, Resolver, Verdict, MAX_DEPTH, MAX_ITERATIONS};
use dns_resolver::server::{answers_request, lookup_request, respond};

fn a(domain: &str, addr: Ipv4) -> DnsRecord {
    DnsRecord::A { domain: domain.to_string(), addr, ttl: 60 }
}

fn ns(domain: &str, host: &str) -> DnsRecord {
    DnsRecord::NS { domain: domain.to_string(), host: host.to_string(), ttl: 60 }
}

fn glued(domain: &str, host: &str, addr: Ipv4) -> DnsPacket {
    let mut reply = DnsPacket::new();
    reply.authorities.push(ns(domain, host));
    reply.resources.push(a(host, addr));
    reply
}

fn unglued(domain: &str, host: &str) -> DnsPacket {
    let mut reply = DnsPacket::new();
    reply.authorities.push(ns(domain, host));
    reply
}

fn answer(domain: &str, addr: Ipv4) -> DnsPacket {
    let mut reply = DnsPacket::new();
    reply.answers.push(a(domain, addr));
    reply
}

fn due(resolver: &Resolver) -> (String, QueryType, String) {
    let query = resolver.query().unwrap();
    (query.name, query.qtype, query.server)
}

#[test]
fn resolution_starts_at_the_root() {
    let resolver = Resolver::new("www.example.com", QueryType::MX);
    assert_eq!(
        due(&resolver),
        ("www.example.com".to_string(), QueryType::MX, "198.41.0.4".to_string())
    );
}

#[test]
fn referral_with_glue() {
    let mut resolver = Resolver::new("www.example.com.", QueryType::A);
    let reply = glued("com.", "a.gtld-servers.net.", Ipv4(192, 5, 6, 30));
    assert!(resolver.on_reply(reply).is_none());
    assert_eq!(
        due(&resolver),
        ("www.example.com.".to_string(), QueryType::A, "192.5.6.30".to_string())
    );
}

#[test]
fn nxdomain_short_circuit() {
    let mut resolver = Resolver::new("nowhere.example.com", QueryType::A);
    let mut reply = glued("com", "a.gtld-servers.net", Ipv4(192, 5, 6, 30));
    reply.header.rescode = ResultCode::NXDOMAIN;
    reply.header.id = 77;
    let result = resolver.on_reply(reply).unwrap();
    assert_eq!(result.header.rescode, ResultCode::NXDOMAIN);
    assert_eq!(result.header.id, 77);
    assert!(result.answers.is_empty());
    assert_eq!(result.authorities.len(), 1);
    assert!(resolver.query().is_none());
}

#[test]
fn answer_ends_the_resolution() {
    let mut resolver = Resolver::new("example.com", QueryType::A);
    assert!(resolver.on_reply(glued("com", "a.gtld-servers.net", Ipv4(192, 5, 6, 30))).is_none());
    let result = resolver.on_reply(answer("example.com", Ipv4(93, 184, 216, 34))).unwrap();
    assert_eq!(result.answers, vec![a("example.com", Ipv4(93, 184, 216, 34))]);
    assert!(resolver.query().is_none());
    // a reply that comes when nothing is asked is handed back
    let stray = resolver.on_reply(answer("x", Ipv4(1, 1, 1, 1))).unwrap();
    assert_eq!(stray.answers, vec![a("x", Ipv4(1, 1, 1, 1))]);
}

#[test]
fn answer_with_an_error_code_is_not_final() {
    let mut reply = answer("example.com", Ipv4(1, 2, 3, 4));
    reply.header.rescode = ResultCode::SERVFAIL;
    assert!(matches!(judge(&reply, "example.com", 0), Verdict::Stuck));
    let mut resolver = Resolver::new("example.com", QueryType::A);
    let result = resolver.on_reply(reply).unwrap();
    assert_eq!(result.header.rescode, ResultCode::SERVFAIL);
}

#[test]
fn reply_that_leads_nowhere_is_returned() {
    let mut resolver = Resolver::new("www.example.com", QueryType::A);
    let mut reply = glued("other.org", "ns.other.org", Ipv4(10, 0, 0, 1));
    reply.header.id = 5;
    let result = resolver.on_reply(reply).unwrap();
    assert_eq!(result.header.id, 5);
    let mut resolver = Resolver::new("www.example.com", QueryType::A);
    let result = resolver.on_reply(DnsPacket::new()).unwrap();
    assert!(result.answers.is_empty());
    assert_eq!(result.header.rescode, ResultCode::NOERROR);
}

#[test]
fn verdicts() {
    let reply = glued("com", "a.gtld-servers.net", Ipv4(192, 5, 6, 30));
    match judge(&reply, "example.com", 0) {
        Verdict::Glue(addr) => assert_eq!(addr, "192.5.6.30"),
        _ => panic!("glue expected"),
    }
    assert!(matches!(judge(&reply, "example.org", 0), Verdict::Stuck));
    let mut reply = unglued("com", "a.gtld-servers.net");
    reply.authorities.push(ns("com", "b.gtld-servers.net"));
    match judge(&reply, "example.com", 3) {
        Verdict::Host(host) => assert_eq!(host, "b.gtld-servers.net"),
        _ => panic!("host expected"),
    }
    // an address somewhere comes before a name anywhere
    reply.resources.push(a("b.gtld-servers.net", Ipv4(192, 33, 14, 30)));
    match judge(&reply, "example.com", 0) {
        Verdict::Glue(addr) => assert_eq!(addr, "192.33.14.30"),
        _ => panic!("glue expected"),
    }
    reply.header.rescode = ResultCode::NXDOMAIN;
    assert!(matches!(judge(&reply, "example.com", 0), Verdict::Final));
    assert!(matches!(judge(&answer("x", Ipv4(1, 1, 1, 1)), "x", 0), Verdict::Final));
}

#[test]
fn referral_without_glue_looks_the_server_up() {
    let mut resolver = Resolver::new("www.example.com", QueryType::MX);
    let mut referral = unglued("example.com", "ns1.example.net");
    referral.header.id = 42;
    assert!(resolver.on_reply(referral).is_none());
    assert_eq!(
        due(&resolver),
        ("ns1.example.net".to_string(), QueryType::A, "198.41.0.4".to_string())
    );
    assert!(resolver.on_reply(glued("net", "a.gtld-servers.net", Ipv4(192, 5, 6, 30))).is_none());
    assert_eq!(
        due(&resolver),
        ("ns1.example.net".to_string(), QueryType::A, "192.5.6.30".to_string())
    );
    assert!(resolver.on_reply(answer("ns1.example.net", Ipv4(203, 0, 113, 7))).is_none());
    assert_eq!(
        due(&resolver),
        ("www.example.com".to_string(), QueryType::MX, "203.0.113.7".to_string())
    );
    let mut last = DnsPacket::new();
    last.answers.push(DnsRecord::MX {
        domain: "www.example.com".to_string(),
        priority: 1,
        host: "mail.example.com".to_string(),
        ttl: 1,
    });
    let result = resolver.on_reply(last).unwrap();
    assert_eq!(result.answers.len(), 1);
    assert!(resolver.query().is_none());
}

#[test]
fn address_of_a_server_is_taken_from_behind_an_alias() {
    for choice in 0..4usize {
        let mut resolver = Resolver::new("www.example.com", QueryType::A);
        assert!(matches!(
            resolver.on_reply_with(unglued("example.com", "ns1.example.net"), 0),
            Outcome::Ask
        ));
        let mut found = DnsPacket::new();
        found.answers.push(DnsRecord::CNAME {
            domain: "ns1.example.net".to_string(),
            host: "ns.example.org".to_string(),
            ttl: 1,
        });
        found.answers.push(a("ns.example.org", Ipv4(203, 0, 113, 9)));
        let ended = match resolver.on_reply_with(found, 0) {
            Outcome::Finished(message) => message,
            Outcome::Ask => panic!("the lookup of the server has its answer"),
        };
        assert!(matches!(resolver.on_result_with(ended, choice), Outcome::Ask));
        assert_eq!(
            due(&resolver),
            ("www.example.com".to_string(), QueryType::A, "203.0.113.9".to_string())
        );
    }
}

#[test]
fn waiting_lookup_goes_on_whatever_is_drawn() {
    for _ in 0..50 {
        let mut resolver = Resolver::new("www.example.com", QueryType::MX);
        assert!(resolver.on_reply(unglued("example.com", "ns1.example.net")).is_none());
        let mut found = DnsPacket::new();
        found.answers.push(DnsRecord::CNAME {
            domain: "ns1.example.net".to_string(),
            host: "ns.example.org".to_string(),
            ttl: 1,
        });
        found.answers.push(a("ns.example.org", Ipv4(203, 0, 113, 9)));
        found.answers.push(ns("example.org", "other.example.org"));
        assert!(resolver.on_reply(found).is_none());
        assert_eq!(
            due(&resolver),
            ("www.example.com".to_string(), QueryType::MX, "203.0.113.9".to_string())
        );
    }
}

#[test]
fn lookup_of_a_server_that_fails_returns_the_referral() {
    let mut resolver = Resolver::new("www.example.com", QueryType::A);
    let mut referral = unglued("example.com", "ns1.example.net");
    referral.header.id = 42;
    assert!(resolver.on_reply(referral).is_none());
    let mut gone = DnsPacket::new();
    gone.header.rescode = ResultCode::NXDOMAIN;
    let result = resolver.on_reply(gone).unwrap();
    assert_eq!(result.header.id, 42);
    assert_eq!(result.authorities, vec![ns("example.com", "ns1.example.net")]);
    assert!(resolver.query().is_none());
}

#[test]
fn steps_with_given_choices() {
    let mut resolver = Resolver::new("www.example.com", QueryType::A);
    let mut referral = unglued("com", "a.gtld-servers.net");
    referral.authorities.push(ns("com", "b.gtld-servers.net"));
    assert!(matches!(resolver.on_reply_with(referral, 1), Outcome::Ask));
    assert_eq!(due(&resolver).0, "b.gtld-servers.net");
    let mut found = answer("b.gtld-servers.net", Ipv4(192, 33, 14, 30));
    found.answers.push(a("b.gtld-servers.net", Ipv4(192, 33, 14, 31)));
    let ended = match resolver.on_reply_with(found, 0) {
        Outcome::Finished(message) => message,
        Outcome::Ask => panic!("the lookup of the server has its answer"),
    };
    assert_eq!(due(&resolver).0, "www.example.com");
    assert!(matches!(resolver.on_result_with(ended, 5), Outcome::Ask));
    assert_eq!(
        due(&resolver),
        ("www.example.com".to_string(), QueryType::A, "192.33.14.31".to_string())
    );
    // a result that comes when no lookup waits for one ends that lookup
    match resolver.on_result_with(answer("y", Ipv4(9, 9, 9, 9)), 0) {
        Outcome::Finished(message) => assert_eq!(message.answers, vec![a("y", Ipv4(9, 9, 9, 9))]),
        Outcome::Ask => panic!("nothing waited for a result"),
    }
    assert!(resolver.query().is_none());
    match resolver.on_result_with(DnsPacket::new(), 0) {
        Outcome::Finished(message) => assert!(message.answers.is_empty()),
        Outcome::Ask => panic!("nothing is under way"),
    }
}

#[test]
fn a_lookup_sends_sixteen_queries_at_most() {
    let mut resolver = Resolver::new("www.example.com", QueryType::A);
    let mut sent = 1;
    loop {
        assert_eq!(due(&resolver).2, if sent == 1 { "198.41.0.4" } else { "10.0.0.1" });
        let mut reply = glued("com", "ns.example.com", Ipv4(10, 0, 0, 1));
        reply.header.id = sent;
        match resolver.on_reply(reply) {
            None => sent += 1,
            Some(last) => {
                assert_eq!(last.header.id, sent);
                break;
            }
        }
        assert!(sent <= 100);
    }
    assert_eq!(sent as usize, MAX_ITERATIONS);
    assert!(resolver.query().is_none());
}

#[test]
fn lookups_nest_eight_deep_at_most() {
    let mut resolver = Resolver::new("h0.example", QueryType::A);
    let mut depth = 1;
    loop {
        let name = due(&resolver).0;
        assert_eq!(name, format!("h{}.example", depth - 1));
        let mut reply = unglued("example", &format!("h{}.example", depth));
        reply.header.id = depth;
        match resolver.on_reply(reply) {
            None => depth += 1,
            Some(last) => {
                // every lookup falls back to the reply that it waited to follow
                assert_eq!(last.header.id, 1);
                break;
            }
        }
        assert!(depth <= 100);
    }
    assert_eq!(depth as usize, MAX_DEPTH);
    assert!(resolver.query().is_none());
}

#[test]
fn resolution_ends_whatever_the_replies() {
    // referrals without glue whenever a lookup may start, with glue otherwise
    let mut resolver = Resolver::new("h.example", QueryType::A);
    let mut sent: u64 = 1;
    let mut turn = 0u32;
    loop {
        turn = turn.wrapping_mul(1103515245).wrapping_add(12345);
        let reply = match (turn >> 16) % 3 {
            0 => unglued("example", "h.example"),
            1 => glued("example", "h.example", Ipv4(10, 0, 0, 1)),
            _ => answer("h.example", Ipv4(10, 0, 0, 2)),
        };
        if resolver.on_reply(reply).is_none() {
            sent += 1;
        } else {
            break;
        }
        assert!(sent < 4_581_298_448);
        if sent > 200_000 {
            // far below the bound, and enough for a test
            return;
        }
    }
    assert!(resolver.query().is_none());
}

#[test]
fn request_of_a_lookup() {
    let request = lookup_request(6666, "yahoo.com", QueryType::MX);
    assert_eq!(request.header.id, 6666);
    assert_eq!(request.header.questions, 1);
    assert!(request.header.recursion_desired);
    assert!(!request.header.response);
    assert_eq!(request.questions, vec![DnsQuestion::new("yahoo.com".to_string(), QueryType::MX)]);
    assert!(request.answers.is_empty() && request.authorities.is_empty());
    assert!(request.resources.is_empty());
    let mut reply = DnsPacket::new();
    reply.header.id = 6666;
    assert!(answers_request(&reply, 6666));
    assert!(!answers_request(&reply, 6667));
    assert!(!answers_request(&reply, 0));
}

#[test]
fn response_takes_over_the_result() {
    let mut request = lookup_request(0x1234, "example.com", QueryType::A);
    request.questions.push(DnsQuestion::new("second.example".to_string(), QueryType::NS));
    let mut result = answer("example.com", Ipv4(93, 184, 216, 34));
    result.header.rescode = ResultCode::NOERROR;
    result.header.id = 6666;
    result.questions.push(DnsQuestion::new("other".to_string(), QueryType::A));
    result.authorities.push(ns("example.com", "ns1.example.com"));
    result.resources.push(a("ns1.example.com", Ipv4(10, 0, 0, 1)));
    let response = respond(&request, Some(result));
    assert_eq!(response.header.id, 0x1234);
    assert!(response.header.response);
    assert!(response.header.recursion_desired);
    assert!(response.header.recursion_available);
    assert!(!response.header.authoritative_answer);
    assert_eq!(response.header.rescode, ResultCode::NOERROR);
    assert_eq!(
        response.questions,
        vec![DnsQuestion::new("example.com".to_string(), QueryType::A)]
    );
    assert_eq!(response.answers, vec![a("example.com", Ipv4(93, 184, 216, 34))]);
    assert_eq!(response.authorities, vec![ns("example.com", "ns1.example.com")]);
    assert_eq!(response.resources, vec![a("ns1.example.com", Ipv4(10, 0, 0, 1))]);
}

#[test]
fn response_passes_the_result_code_on() {
    let request = lookup_request(1, "nowhere.example", QueryType::A);
    let mut result = DnsPacket::new();
    result.header.rescode = ResultCode::NXDOMAIN;
    let response = respond(&request, Some(result));
    assert_eq!(response.header.rescode, ResultCode::NXDOMAIN);
    assert_eq!(response.questions.len(), 1);
    assert!(response.answers.is_empty());
}

#[test]
fn response_to_a_failed_resolution() {
    let request = lookup_request(9, "example.com", QueryType::A);
    let response = respond(&request, None);
    assert_eq!(response.header.id, 9);
    assert_eq!(response.header.rescode, ResultCode::SERVFAIL);
    assert!(response.header.response);
    assert!(response.questions.is_empty());
    assert!(response.answers.is_empty());
}

#[test]
fn response_to_a_request_without_a_question() {
    let mut request = DnsPacket::new();
    request.header.id = 3;
    let response = respond(&request, None);
    assert_eq!(response.header.id, 3);
    assert_eq!(response.header.rescode, ResultCode::FORMERR);
    assert!(response.header.response);
    let response = respond(&request, Some(answer("x", Ipv4(1, 1, 1, 1))));
    assert_eq!(response.header.rescode, ResultCode::FORMERR);
    assert!(response.questions.is_empty());
    assert!(response.answers.is_empty());
}
