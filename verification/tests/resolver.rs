use tiny_dns::buffer::BytePacketBuffer;
use tiny_dns::packet::DnsPacket;
use tiny_dns::qtype::QueryType;
use tiny_dns::record::{DnsRecord, IpAddress};
use tiny_dns::resolve::{
    build_lookup_request, next_step, record_empty_questions, record_lookup_failure,
    record_lookup_success, response_skeleton, LookupStep,
};
use tiny_dns::rscode::ResultCode;

fn referral_packet() -> DnsPacket {
    let mut packet = DnsPacket::new();
    packet.authorities.push(DnsRecord::NS {
        domain: "example.com.".to_string(),
        host: "ns1.example.com.".to_string(),
        ttl: 3600,
    });
    packet.authorities.push(DnsRecord::NS {
        domain: "other.org.".to_string(),
        host: "ns.other.org.".to_string(),
        ttl: 3600,
    });
    packet
}

#[test]
fn resolved_ns_uses_glue() {
    let mut packet = referral_packet();
    packet.resources.push(DnsRecord::A {
        domain: "ns1.example.com.".to_string(),
        addr: 0xC0000201,
        ttl: 3600,
    });
    assert_eq!(
        packet.get_resolved_ns("www.example.com."),
        Some(IpAddress::V4(0xC0000201))
    );
}

#[test]
fn unresolved_ns_skips_glued_hosts() {
    // A relevant host that already has glue needs no lookup of its own:
    // the unresolved-delegate helper passes over it.
    let mut packet = referral_packet();
    packet.authorities.push(DnsRecord::NS {
        domain: "example.com.".to_string(),
        host: "ns2.example.com.".to_string(),
        ttl: 3600,
    });
    packet.resources.push(DnsRecord::A {
        domain: "ns1.example.com.".to_string(),
        addr: 0xC0000201,
        ttl: 3600,
    });
    assert_eq!(
        packet.get_unresolved_ns("www.example.com."),
        Some(&"ns2.example.com.".to_string())
    );
    packet.resources.push(DnsRecord::A {
        domain: "ns2.example.com.".to_string(),
        addr: 0xC0000202,
        ttl: 3600,
    });
    assert_eq!(packet.get_unresolved_ns("www.example.com."), None);
}

#[test]
fn unresolved_ns_without_glue() {
    let packet = referral_packet();
    // No glue record: the delegate's address must be looked up separately.
    assert_eq!(packet.get_resolved_ns("www.example.com."), None);
    assert_eq!(
        packet.get_unresolved_ns("www.example.com."),
        Some(&"ns1.example.com.".to_string())
    );
    // A name outside the delegated domain matches nothing.
    assert_eq!(packet.get_unresolved_ns("www.elsewhere.net."), None);
}

#[test]
fn first_address_answers() {
    let mut packet = DnsPacket::new();
    packet.answers.push(DnsRecord::CNAME {
        domain: "a.".to_string(),
        host: "b.".to_string(),
        ttl: 1,
    });
    packet.answers.push(DnsRecord::A {
        domain: "b.".to_string(),
        addr: 7,
        ttl: 1,
    });
    packet.answers.push(DnsRecord::A {
        domain: "c.".to_string(),
        addr: 8,
        ttl: 1,
    });
    assert_eq!(packet.pick_one_server(), Some(IpAddress::V4(7)));
    assert_eq!(packet.get_random_ipv4(), Some(7));
    assert_eq!(packet.get_random_ipv6(), None);
}

#[test]
fn lookup_request_shape() {
    let req = build_lookup_request("example.com.", QueryType::A);
    assert_eq!(req.header.questions, 1);
    assert!(req.header.recursion_desired);
    assert!(!req.header.response);
    assert_eq!(req.questions.len(), 1);
    assert_eq!(req.questions[0].name, "example.com.");
    assert_eq!(req.questions[0].qtype, QueryType::A);
    assert!(req.answers.is_empty());
}

#[test]
fn next_step_finishes_on_answers() {
    let mut res = DnsPacket::new();
    res.answers.push(DnsRecord::A {
        domain: "example.com.".to_string(),
        addr: 1,
        ttl: 1,
    });
    assert_eq!(next_step(&res, "example.com."), LookupStep::Finished);
}

#[test]
fn next_step_terminates_on_nxdomain() {
    // An NXDOMAIN result ends the lookup at once, even when the response
    // also carries a referral that could otherwise be followed.
    let mut res = referral_packet();
    res.resources.push(DnsRecord::A {
        domain: "ns1.example.com.".to_string(),
        addr: 0xC0000201,
        ttl: 3600,
    });
    res.header.rescode = ResultCode::NXDOMAIN;
    assert_eq!(next_step(&res, "www.example.com."), LookupStep::Finished);
}

#[test]
fn next_step_follows_glued_referral() {
    let mut res = referral_packet();
    res.resources.push(DnsRecord::A {
        domain: "ns1.example.com.".to_string(),
        addr: 0xC0000201,
        ttl: 3600,
    });
    assert_eq!(
        next_step(&res, "www.example.com."),
        LookupStep::QueryServer(IpAddress::V4(0xC0000201))
    );
}

#[test]
fn next_step_asks_for_unresolved_delegate() {
    let res = referral_packet();
    assert_eq!(
        next_step(&res, "www.example.com."),
        LookupStep::ResolveNameServer("ns1.example.com.".to_string())
    );
}

#[test]
fn next_step_gives_up_without_referral() {
    let res = DnsPacket::new();
    assert_eq!(next_step(&res, "www.example.com."), LookupStep::Finished);
}

#[test]
fn forwarded_lookup_end_to_end() {
    // Forwarding-mode lookup against a stub upstream that returns one
    // address answer: the response's id matches the request and its
    // answers section holds that one record.
    let request = build_lookup_request("example.com.", QueryType::A);
    let request_id = request.header.id;
    let mut wire = BytePacketBuffer::new();
    let mut request = request;
    request.write(&mut wire).unwrap();
    wire.seek(0).unwrap();

    // The stub upstream decodes the request and answers it.
    let seen = DnsPacket::from_buffer(&mut wire).unwrap();
    assert_eq!(seen.header.id, request_id);
    assert_eq!(seen.questions[0].name, "example.com.");
    let answer = DnsRecord::A {
        domain: "example.com.".to_string(),
        addr: 0x5DB8D822,
        ttl: 300,
    };
    let mut upstream = DnsPacket::new();
    upstream.header.id = seen.header.id;
    upstream.header.response = true;
    upstream.questions = seen.questions;
    upstream.answers.push(answer.clone());
    let mut reply_wire = BytePacketBuffer::new();
    upstream.write(&mut reply_wire).unwrap();
    reply_wire.seek(0).unwrap();

    // The forwarding client returns the decoded response verbatim.
    let response = DnsPacket::from_buffer(&mut reply_wire).unwrap();
    assert_eq!(response.header.id, request_id);
    assert_eq!(response.answers, vec![answer]);
    assert_eq!(next_step(&response, "example.com."), LookupStep::Finished);
}

#[test]
fn response_assembly_success() {
    let mut resp = response_skeleton(0xABCD);
    assert_eq!(resp.header.id, 0xABCD);
    assert!(resp.header.response);
    assert!(resp.header.recursion_available);
    assert!(resp.header.recursion_desired);

    let mut result = DnsPacket::new();
    result.header.rescode = ResultCode::NOERROR;
    result.answers.push(DnsRecord::A {
        domain: "example.com.".to_string(),
        addr: 9,
        ttl: 1,
    });
    result.authorities.push(DnsRecord::NS {
        domain: "example.com.".to_string(),
        host: "ns1.example.com.".to_string(),
        ttl: 1,
    });
    let question = tiny_dns::question::DnsQuestion::new(
        "example.com.".to_string(),
        QueryType::A,
    );
    record_lookup_success(&mut resp, question.clone(), result);
    assert_eq!(resp.questions, vec![question]);
    assert_eq!(resp.answers.len(), 1);
    assert_eq!(resp.authorities.len(), 1);
    assert_eq!(resp.header.rescode, ResultCode::NOERROR);
}

#[test]
fn response_assembly_failures() {
    let mut resp = response_skeleton(7);
    record_lookup_failure(&mut resp);
    assert_eq!(resp.header.rescode, ResultCode::SERVFAIL);

    let mut empty = response_skeleton(8);
    record_empty_questions(&mut empty);
    assert_eq!(empty.header.rescode, ResultCode::FORMERR);
}
