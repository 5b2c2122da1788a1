//! The resolver's decision logic: building queries, interpreting a
//! response as the next step of an iterative lookup, and assembling the
//! reply to a client. The caller performs the network sends and receives
//! and feeds the decoded messages back in.

use crate::header::{fresh_header, header_wf, DnsHeader};
use crate::packet::{resolved_ns_from, unresolved_ns_from, DnsPacket};
use crate::question::{DnsQuestion, QuestionModel};
use crate::qtype::QueryType;

use crate::record::IpAddress;
use crate::rscode::ResultCode;
use vstd::prelude::*;
use vstd::string::StringExecFns;

verus! {

/// The fixed root server an iterative resolution starts from
/// (f.root-servers.net), as a 32-bit IPv4 address value.
pub const ROOT_SERVER: u32 = 0xC00505F1;

/// Relies on `rand::random`: draws a fresh 16-bit query id. Nothing can
/// be promised of a random value.
#[verifier::external_body]
fn fresh_query_id() -> (r: u16) {
    rand::random()
}

/// A query packet for `qname` and `qtype`: one question, recursion
/// desired, and a freshly drawn id (of which nothing is assumed).
pub fn build_lookup_request(qname: &str, qtype: QueryType) -> (r: DnsPacket)
    ensures
        r.header == (DnsHeader {
            id: r.header.id,
            questions: 1u16,
            recursion_desired: true,
            ..fresh_header()
        }),
        header_wf(r.header),
        r.questions@.len() == 1,
        r.questions@[0]@ == (QuestionModel { name: qname@, qtype }),
        r.answers@.len() == 0,
        r.authorities@.len() == 0,
        r.resources@.len() == 0,
{
    let mut packet = DnsPacket::new();
    packet.header.id = fresh_query_id();
    packet.header.questions = 1;
    packet.header.recursion_desired = true;
    packet.questions.push(DnsQuestion::new(String::from_str(qname), qtype));
    packet
}

/// What an iterative lookup should do after receiving one response.
#[derive(Debug, Clone, PartialEq, Eq)]
pub enum LookupStep {
    /// The response is the final answer: return it as-is.
    Finished,
    /// Continue the loop against this server.
    QueryServer(IpAddress),
    /// Resolve this name-server host with a nested lookup first, then
    /// continue against whatever address that lookup yields.
    ResolveNameServer(String),
}

/// Decide the next step after a response `res` to a query for `qname`:
/// answers with a clean status or a definitive name-does-not-exist end
/// the lookup; otherwise a glue-resolved delegate is queried directly, an
/// unresolved delegate is handed back for its own lookup, and a response
/// offering neither is returned as-is.
pub fn next_step(res: &DnsPacket, qname: &str) -> (r: LookupStep)
    ensures
        res@.answers.len() > 0 && res@.header.rescode == ResultCode::NOERROR ==> r
            == LookupStep::Finished,
        !(res@.answers.len() > 0 && res@.header.rescode == ResultCode::NOERROR) && res@.header.rescode
            == ResultCode::NXDOMAIN ==> r == LookupStep::Finished,
        !(res@.answers.len() > 0 && res@.header.rescode == ResultCode::NOERROR) && res@.header.rescode
            != ResultCode::NXDOMAIN ==> (match resolved_ns_from(
            qname@,
            res@.authorities,
            res@.resources,
            0,
        ) {
            Some(ip) => r == LookupStep::QueryServer(ip),
            None => (match unresolved_ns_from(qname@, res@.authorities, res@.resources, 0) {
                Some(host) => (r matches LookupStep::ResolveNameServer(s) && s@ == host),
                None => r == LookupStep::Finished,
            }),
        }),
{
    if res.answers.len() > 0 && res.header.rescode == ResultCode::NOERROR {
        return LookupStep::Finished;
    }
    if res.header.rescode == ResultCode::NXDOMAIN {
        // The domain does not exist; no further hop can change that.
        return LookupStep::Finished;
    }
    if let Some(ip) = res.get_resolved_ns(qname) {
        return LookupStep::QueryServer(ip);
    }
    match res.get_unresolved_ns(qname) {
        Some(host) => LookupStep::ResolveNameServer(host.clone()),
        None => LookupStep::Finished,
    }
}

/// The skeleton of a reply to a client request with id `id`: response and
/// recursion flags set, sections empty, status clean until a lookup
/// outcome is recorded.
pub fn response_skeleton(id: u16) -> (r: DnsPacket)
    ensures
        r.header == (DnsHeader {
            id,
            recursion_desired: true,
            recursion_available: true,
            response: true,
            ..fresh_header()
        }),
        header_wf(r.header),
        r.questions@.len() == 0,
        r.answers@.len() == 0,
        r.authorities@.len() == 0,
        r.resources@.len() == 0,
{
    let mut packet = DnsPacket::new();
    packet.header.id = id;
    packet.header.recursion_desired = true;
    packet.header.recursion_available = true;
    packet.header.response = true;
    packet
}

/// Record a successful lookup in the reply: take over the question, the
/// result's status, and every record of its three sections, in order.
pub fn record_lookup_success(resp: &mut DnsPacket, question: DnsQuestion, result: DnsPacket)
    ensures
        final(resp).header == (DnsHeader {
            rescode: result.header.rescode,
            ..old(resp).header
        }),
        final(resp).questions@ == old(resp).questions@.push(question),
        final(resp).answers@ == old(resp).answers@ + result.answers@,
        final(resp).authorities@ == old(resp).authorities@ + result.authorities@,
        final(resp).resources@ == old(resp).resources@ + result.resources@,
{
    let mut result = result;
    resp.questions.push(question);
    resp.header.rescode = result.header.rescode;
    resp.answers.append(&mut result.answers);
    resp.authorities.append(&mut result.authorities);
    resp.resources.append(&mut result.resources);
}

/// Record a failed lookup in the reply: the client sees a server failure
/// rather than silence.
pub fn record_lookup_failure(resp: &mut DnsPacket)
    ensures
        final(resp).header == (DnsHeader { rescode: ResultCode::SERVFAIL, ..old(resp).header }),
        final(resp).questions == old(resp).questions,
        final(resp).answers == old(resp).answers,
        final(resp).authorities == old(resp).authorities,
        final(resp).resources == old(resp).resources,
{
    resp.header.rescode = ResultCode::SERVFAIL;
}

/// Record that the request held no question at all: the client sent a
/// malformed query and gets a format error back.
pub fn record_empty_questions(resp: &mut DnsPacket)
    ensures
        final(resp).header == (DnsHeader { rescode: ResultCode::FORMERR, ..old(resp).header }),
        final(resp).questions == old(resp).questions,
        final(resp).answers == old(resp).answers,
        final(resp).authorities == old(resp).authorities,
        final(resp).resources == old(resp).resources,
{
    resp.header.rescode = ResultCode::FORMERR;
}

} // verus!
