//! A whole DNS message: header plus the four ordered record sections, with
//! the helper queries the resolver uses to interpret referral responses.

use crate::buffer::{
    lemma_write_all_fail, lemma_write_all_split, write_all, BytePacketBuffer, PACKET_SIZE,
};
use crate::header::{header_at, header_wf, wire_header, DnsHeader};
use crate::question::{parse_question, wire_question, DnsQuestion, QuestionModel};
use crate::qtype::QueryType;
use crate::record::{
    name_bytes, parse_record, record_labels_ok, wire_record, DnsRecord, IpAddress, RecordModel,
};
use crate::DnsError;
use vstd::prelude::*;

verus! {

/// A decoded or assembled DNS message.
#[derive(Clone, Debug)]
pub struct DnsPacket {
    pub header: DnsHeader,
    pub questions: Vec<DnsQuestion>,
    pub answers: Vec<DnsRecord>,
    pub authorities: Vec<DnsRecord>,
    pub resources: Vec<DnsRecord>,
}

/// The mathematical content of a message.
pub struct PacketModel {
    pub header: DnsHeader,
    pub questions: Seq<QuestionModel>,
    pub answers: Seq<RecordModel>,
    pub authorities: Seq<RecordModel>,
    pub resources: Seq<RecordModel>,
}

/// The models of a section's records.
pub open spec fn rec_models(v: Seq<DnsRecord>) -> Seq<RecordModel> {
    v.map_values(|r: DnsRecord| r@)
}

impl View for DnsPacket {
    type V = PacketModel;

    open spec fn view(&self) -> PacketModel {
        PacketModel {
            header: self.header,
            questions: self.questions@.map_values(|q: DnsQuestion| q@),
            answers: rec_models(self.answers@),
            authorities: rec_models(self.authorities@),
            resources: rec_models(self.resources@),
        }
    }
}

/// `n` questions decoded one after another from `bytes` at `pos`.
pub open spec fn parse_questions(bytes: Seq<u8>, pos: int, n: int) -> Result<
    (Seq<QuestionModel>, int),
    DnsError,
>
    decreases n,
{
    if n <= 0 {
        Ok((Seq::empty(), pos))
    } else {
        match parse_question(bytes, pos) {
            Err(e) => Err(e),
            Ok((q, p)) => match parse_questions(bytes, p, n - 1) {
                Err(e) => Err(e),
                Ok((qs, end)) => Ok((seq![q] + qs, end)),
            },
        }
    }
}

/// `n` records decoded one after another from `bytes` at `pos`.
pub open spec fn parse_records(bytes: Seq<u8>, pos: int, n: int) -> Result<
    (Seq<RecordModel>, int),
    DnsError,
>
    decreases n,
{
    if n <= 0 {
        Ok((Seq::empty(), pos))
    } else {
        match parse_record(bytes, pos) {
            Err(e) => Err(e),
            Ok((m, p)) => match parse_records(bytes, p, n - 1) {
                Err(e) => Err(e),
                Ok((ms, end)) => Ok((seq![m] + ms, end)),
            },
        }
    }
}

/// The message decoded from `bytes` at `pos`: header, then exactly the
/// numbers of questions and records the header's counts declare.
pub open spec fn parse_packet(bytes: Seq<u8>, pos: int) -> Result<(PacketModel, int), DnsError> {
    if pos + 12 > PACKET_SIZE {
        Err(DnsError::OutOfBounds)
    } else {
        let h = header_at(bytes, pos);
        match parse_questions(bytes, pos + 12, h.questions as int) {
            Err(e) => Err(e),
            Ok((qs, p1)) => match parse_records(bytes, p1, h.answers as int) {
                Err(e) => Err(e),
                Ok((ans, p2)) => match parse_records(bytes, p2, h.authoritative_entries as int) {
                    Err(e) => Err(e),
                    Ok((auth, p3)) => match parse_records(bytes, p3, h.resource_entries as int) {
                        Err(e) => Err(e),
                        Ok((res, p4)) => Ok(
                            (
                                PacketModel {
                                    header: h,
                                    questions: qs,
                                    answers: ans,
                                    authorities: auth,
                                    resources: res,
                                },
                                p4,
                            ),
                        ),
                    },
                },
            },
        }
    }
}

/// The concatenated wire forms of a sequence of questions.
pub open spec fn wire_questions(qs: Seq<QuestionModel>) -> Seq<u8>
    decreases qs.len(),
{
    if qs.len() == 0 {
        Seq::empty()
    } else {
        wire_question(qs[0]) + wire_questions(qs.drop_first())
    }
}

/// The concatenated wire forms of a sequence of records.
pub open spec fn wire_records(rs: Seq<RecordModel>) -> Seq<u8>
    decreases rs.len(),
{
    if rs.len() == 0 {
        Seq::empty()
    } else {
        wire_record(rs[0]) + wire_records(rs.drop_first())
    }
}

/// The full wire form of a message.
pub open spec fn wire_packet(m: PacketModel) -> Seq<u8> {
    wire_header(m.header) + wire_questions(m.questions) + wire_records(m.answers) + wire_records(
        m.authorities,
    ) + wire_records(m.resources)
}

/// True if every name in the message has labels of at most 63 bytes.
pub open spec fn packet_labels_ok(m: PacketModel) -> bool {
    (forall|i: int|
        0 <= i < m.questions.len() ==> crate::buffer::labels_ok(name_bytes(#[trigger] m.questions[i].name)))
        && (forall|i: int| 0 <= i < m.answers.len() ==> record_labels_ok(#[trigger] m.answers[i]))
        && (forall|i: int|
        0 <= i < m.authorities.len() ==> record_labels_ok(#[trigger] m.authorities[i])) && (forall|
        i: int,
    |
        0 <= i < m.resources.len() ==> record_labels_ok(#[trigger] m.resources[i]))
}

/// Taking one more element extends the wire of the taken prefix by the
/// element's wire.
pub proof fn lemma_wire_questions_snoc(qs: Seq<QuestionModel>, i: int)
    requires
        0 <= i < qs.len(),
    ensures
        wire_questions(qs.take(i + 1)) == wire_questions(qs.take(i)) + wire_question(qs[i]),
    decreases i,
{
    if i == 0 {
        assert(qs.take(1) =~= seq![qs[0]]);
        assert(qs.take(1).drop_first() =~= Seq::<QuestionModel>::empty());
        assert(qs.take(0) =~= Seq::<QuestionModel>::empty());
        assert(wire_questions(Seq::<QuestionModel>::empty()) =~= Seq::<u8>::empty());
        assert(wire_questions(qs.take(1)) == wire_question(qs[0]) + wire_questions(
            Seq::<QuestionModel>::empty(),
        ));
        assert(wire_question(qs[0]) + Seq::<u8>::empty() =~= wire_question(qs[0]));
        assert(wire_questions(qs.take(0)) + wire_question(qs[0]) =~= wire_question(qs[0]));
    } else {
        lemma_wire_questions_snoc(qs.drop_first(), i - 1);
        assert(qs.take(i + 1).drop_first() =~= qs.drop_first().take(i));
        assert(qs.take(i).drop_first() =~= qs.drop_first().take(i - 1));
        assert(qs.take(i + 1)[0] == qs[0]);
        assert(qs.take(i)[0] == qs[0]);
        assert(qs.drop_first()[i - 1] == qs[i]);
        assert(wire_question(qs[0]) + (wire_questions(qs.drop_first().take(i - 1)) + wire_question(
            qs[i],
        )) =~= (wire_question(qs[0]) + wire_questions(qs.drop_first().take(i - 1))) + wire_question(
            qs[i],
        ));
    }
}

/// Taking one more record extends the wire of the taken prefix by the
/// record's wire.
pub proof fn lemma_wire_records_snoc(rs: Seq<RecordModel>, i: int)
    requires
        0 <= i < rs.len(),
    ensures
        wire_records(rs.take(i + 1)) == wire_records(rs.take(i)) + wire_record(rs[i]),
    decreases i,
{
    if i == 0 {
        assert(rs.take(1) =~= seq![rs[0]]);
        assert(rs.take(1).drop_first() =~= Seq::<RecordModel>::empty());
        assert(rs.take(0) =~= Seq::<RecordModel>::empty());
        assert(wire_records(Seq::<RecordModel>::empty()) =~= Seq::<u8>::empty());
        assert(wire_records(rs.take(1)) == wire_record(rs[0]) + wire_records(
            Seq::<RecordModel>::empty(),
        ));
        assert(wire_record(rs[0]) + Seq::<u8>::empty() =~= wire_record(rs[0]));
        assert(wire_records(rs.take(0)) + wire_record(rs[0]) =~= wire_record(rs[0]));
    } else {
        lemma_wire_records_snoc(rs.drop_first(), i - 1);
        assert(rs.take(i + 1).drop_first() =~= rs.drop_first().take(i));
        assert(rs.take(i).drop_first() =~= rs.drop_first().take(i - 1));
        assert(rs.take(i + 1)[0] == rs[0]);
        assert(rs.take(i)[0] == rs[0]);
        assert(rs.drop_first()[i - 1] == rs[i]);
        assert(wire_record(rs[0]) + (wire_records(rs.drop_first().take(i - 1)) + wire_record(
            rs[i],
        )) =~= (wire_record(rs[0]) + wire_records(rs.drop_first().take(i - 1))) + wire_record(
            rs[i],
        ));
    }
}

/// A sequence's wire form splits at any index into the wire of the prefix
/// and the wire of the suffix.
pub proof fn lemma_wire_questions_parts(qs: Seq<QuestionModel>, i: int)
    requires
        0 <= i <= qs.len(),
    ensures
        wire_questions(qs) == wire_questions(qs.take(i)) + wire_questions(qs.skip(i)),
    decreases i,
{
    if i == 0 {
        assert(qs.take(0) =~= Seq::<QuestionModel>::empty());
        assert(qs.skip(0) =~= qs);
        assert(wire_questions(Seq::<QuestionModel>::empty()) + wire_questions(qs) =~= wire_questions(qs));
    } else {
        lemma_wire_questions_parts(qs, i - 1);
        lemma_wire_questions_snoc(qs, i - 1);
        assert(qs.skip(i - 1).drop_first() =~= qs.skip(i));
        assert(qs.skip(i - 1)[0] == qs[i - 1]);
        assert(wire_questions(qs.skip(i - 1)) == wire_question(qs[i - 1]) + wire_questions(
            qs.skip(i),
        ));
        assert((wire_questions(qs.take(i - 1)) + (wire_question(qs[i - 1]) + wire_questions(
            qs.skip(i),
        ))) =~= ((wire_questions(qs.take(i - 1)) + wire_question(qs[i - 1])) + wire_questions(
            qs.skip(i),
        )));
    }
}

/// A record sequence's wire form splits at any index into the wire of the
/// prefix and the wire of the suffix.
pub proof fn lemma_wire_records_parts(rs: Seq<RecordModel>, i: int)
    requires
        0 <= i <= rs.len(),
    ensures
        wire_records(rs) == wire_records(rs.take(i)) + wire_records(rs.skip(i)),
    decreases i,
{
    if i == 0 {
        assert(rs.take(0) =~= Seq::<RecordModel>::empty());
        assert(rs.skip(0) =~= rs);
        assert(wire_records(Seq::<RecordModel>::empty()) + wire_records(rs) =~= wire_records(rs));
    } else {
        lemma_wire_records_parts(rs, i - 1);
        lemma_wire_records_snoc(rs, i - 1);
        assert(rs.skip(i - 1).drop_first() =~= rs.skip(i));
        assert(rs.skip(i - 1)[0] == rs[i - 1]);
        assert(wire_records(rs.skip(i - 1)) == wire_record(rs[i - 1]) + wire_records(rs.skip(i)));
        assert((wire_records(rs.take(i - 1)) + (wire_record(rs[i - 1]) + wire_records(rs.skip(i))))
            =~= ((wire_records(rs.take(i - 1)) + wire_record(rs[i - 1])) + wire_records(
            rs.skip(i),
        )));
    }
}

/// The address a record directly carries, if any.
pub open spec fn record_ip(m: RecordModel) -> Option<IpAddress> {
    match m {
        RecordModel::A { addr, .. } => Some(IpAddress::V4(addr)),
        RecordModel::AAAA { addr, .. } => Some(IpAddress::V6(addr)),
        _ => None,
    }
}

/// The first address carried by a record at or after index `i`.
pub open spec fn first_server_from(rs: Seq<RecordModel>, i: int) -> Option<IpAddress>
    decreases rs.len() - i,
{
    if i < 0 || i >= rs.len() {
        None
    } else if record_ip(rs[i]) is Some {
        record_ip(rs[i])
    } else {
        first_server_from(rs, i + 1)
    }
}

/// The first IPv4 address record at or after index `i`.
pub open spec fn first_a_from(rs: Seq<RecordModel>, i: int) -> Option<u32>
    decreases rs.len() - i,
{
    if i < 0 || i >= rs.len() {
        None
    } else if rs[i] matches RecordModel::A { addr, .. } {
        Some(rs[i]->A_addr)
    } else {
        first_a_from(rs, i + 1)
    }
}

/// The first IPv6 address record at or after index `i`.
pub open spec fn first_aaaa_from(rs: Seq<RecordModel>, i: int) -> Option<crate::record::Ipv6Address>
    decreases rs.len() - i,
{
    if i < 0 || i >= rs.len() {
        None
    } else if rs[i] matches RecordModel::AAAA { addr, .. } {
        Some(rs[i]->AAAA_addr)
    } else {
        first_aaaa_from(rs, i + 1)
    }
}

/// `small` is a suffix of `big`.
pub open spec fn suffix_of(small: Seq<u8>, big: Seq<u8>) -> bool {
    small.len() <= big.len() && big.subrange(big.len() - small.len(), big.len() as int) == small
}

/// The delegated host of a name-server record whose owning domain is a
/// suffix of the query name — the test for an authoritative referral.
pub open spec fn ns_for(m: RecordModel, qname: Seq<char>) -> Option<Seq<char>> {
    match m {
        RecordModel::NS { domain, host, .. } => if suffix_of(
            name_bytes(domain),
            name_bytes(qname),
        ) {
            Some(host)
        } else {
            None
        },
        _ => None,
    }
}

/// The first glue address for `host` among the records at or after `i`:
/// an address record whose owning domain equals the host name.
pub open spec fn glue_from(host: Seq<char>, rs: Seq<RecordModel>, i: int) -> Option<IpAddress>
    decreases rs.len() - i,
{
    if i < 0 || i >= rs.len() {
        None
    } else {
        match rs[i] {
            RecordModel::A { domain, addr, .. } => if domain == host {
                Some(IpAddress::V4(addr))
            } else {
                glue_from(host, rs, i + 1)
            },
            RecordModel::AAAA { domain, addr, .. } => if domain == host {
                Some(IpAddress::V6(addr))
            } else {
                glue_from(host, rs, i + 1)
            },
            _ => glue_from(host, rs, i + 1),
        }
    }
}

/// The first glue-resolved delegate address: among the name-server records
/// relevant to the query name at or after `i`, the first whose host has a
/// glue address among `res`.
pub open spec fn resolved_ns_from(
    qname: Seq<char>,
    auth: Seq<RecordModel>,
    res: Seq<RecordModel>,
    i: int,
) -> Option<IpAddress>
    decreases auth.len() - i,
{
    if i < 0 || i >= auth.len() {
        None
    } else {
        match ns_for(auth[i], qname) {
            Some(host) => if glue_from(host, res, 0) is Some {
                glue_from(host, res, 0)
            } else {
                resolved_ns_from(qname, auth, res, i + 1)
            },
            None => resolved_ns_from(qname, auth, res, i + 1),
        }
    }
}

/// The first relevant delegated host at or after `i` that lacks a glue
/// address among `res` — the delegate that needs a lookup of its own.
pub open spec fn unresolved_ns_from(
    qname: Seq<char>,
    auth: Seq<RecordModel>,
    res: Seq<RecordModel>,
    i: int,
) -> Option<Seq<char>>
    decreases auth.len() - i,
{
    if i < 0 || i >= auth.len() {
        None
    } else {
        match ns_for(auth[i], qname) {
            Some(host) => if glue_from(host, res, 0) is None {
                Some(host)
            } else {
                unresolved_ns_from(qname, auth, res, i + 1)
            },
            None => unresolved_ns_from(qname, auth, res, i + 1),
        }
    }
}

/// True if `qname`'s bytes end with `domain`'s bytes.
fn name_ends_with(qname: &str, domain: &str) -> (r: bool)
    ensures
        r == suffix_of(
            vstd::utf8::encode_utf8(domain@),
            vstd::utf8::encode_utf8(qname@),
        ),
{
    let qb = qname.as_bytes();
    let db = domain.as_bytes();
    let qn = qb.len();
    let dn = db.len();
    if dn > qn {
        return false;
    }
    let mut i: usize = 0;
    while i < dn
        invariant
            i <= dn <= qn,
            qb@.len() == qn,
            db@.len() == dn,
            qb@ == vstd::utf8::encode_utf8(qname@),
            db@ == vstd::utf8::encode_utf8(domain@),
            forall|j: int| 0 <= j < i ==> qb@[qn - dn + j] == db@[j],
        decreases dn - i,
    {
        if qb[qn - dn + i] != db[i] {
            proof {
                assert(qb@.subrange(qn - dn, qn as int)[i as int] != db@[i as int]);
            }
            return false;
        }
        i = i + 1;
    }
    proof {
        assert(qb@.subrange(qn - dn, qn as int) =~= db@);
    }
    true
}

impl DnsPacket {
    /// An empty message with a fresh header.
    pub fn new() -> (r: DnsPacket)
        ensures
            r.header == crate::header::fresh_header(),
            header_wf(r.header),
            r.questions@.len() == 0,
            r.answers@.len() == 0,
            r.authorities@.len() == 0,
            r.resources@.len() == 0,
    {
        DnsPacket {
            header: DnsHeader::new(),
            questions: Vec::new(),
            answers: Vec::new(),
            authorities: Vec::new(),
            resources: Vec::new(),
        }
    }

    /// Decode `n` questions at the buffer's cursor.
    fn read_questions(buffer: &mut BytePacketBuffer, n: u16) -> (r: Result<
        Vec<DnsQuestion>,
        DnsError,
    >)
        requires
            old(buffer).wf(),
        ensures
            final(buffer).wf(),
            final(buffer).buf == old(buffer).buf,
            match parse_questions(old(buffer).buf@, old(buffer).pos as int, n as int) {
                Ok((ms, end)) => (r matches Ok(v) && v@.map_values(|q: DnsQuestion| q@) == ms
                    && final(buffer).pos == end),
                Err(e) => r == Err::<Vec<DnsQuestion>, DnsError>(e),
            },
    {
        let mut out: Vec<DnsQuestion> = Vec::new();
        let mut i: u16 = 0;
        proof {
            assert(out@.map_values(|q: DnsQuestion| q@) =~= Seq::<QuestionModel>::empty());
        }
        while i < n
            invariant
                buffer.wf(),
                buffer.buf == old(buffer).buf,
                i <= n,
                parse_questions(old(buffer).buf@, old(buffer).pos as int, n as int) == (
                match parse_questions(buffer.buf@, buffer.pos as int, n as int - i as int) {
                    Ok((ms, end)) => Ok::<(Seq<QuestionModel>, int), DnsError>(
                        (out@.map_values(|q: DnsQuestion| q@) + ms, end),
                    ),
                    Err(e) => Err::<(Seq<QuestionModel>, int), DnsError>(e),
                }),
            decreases n - i,
        {
            let ghost cur = parse_questions(buffer.buf@, buffer.pos as int, n as int - i as int);
            let ghost acc = out@.map_values(|q: DnsQuestion| q@);
            let mut question = DnsQuestion::new(String::new(), QueryType::UNKNOWN(0));
            match question.read(buffer) {
                Ok(u) => {
                },
                Err(e) => {
                    proof {
                        assert(cur == Err::<(Seq<QuestionModel>, int), DnsError>(e));
                    }
                    return Err(e);
                },
            }
            out.push(question);
            i = i + 1;
            proof {
                assert(out@.map_values(|q: DnsQuestion| q@) =~= acc + seq![question@]);
                if let Ok((rest, end)) = parse_questions(
                    buffer.buf@,
                    buffer.pos as int,
                    n as int - i as int,
                ) {
                    assert(acc + (seq![question@] + rest) =~= (acc + seq![question@]) + rest);
                }
            }
        }
        proof {
            let acc = out@.map_values(|q: DnsQuestion| q@);
            assert(acc + Seq::<QuestionModel>::empty() =~= acc);
        }
        Ok(out)
    }

    /// Decode `n` records at the buffer's cursor.
    fn read_records(buffer: &mut BytePacketBuffer, n: u16) -> (r: Result<Vec<DnsRecord>, DnsError>)
        requires
            old(buffer).wf(),
        ensures
            final(buffer).wf(),
            final(buffer).buf == old(buffer).buf,
            match parse_records(old(buffer).buf@, old(buffer).pos as int, n as int) {
                Ok((ms, end)) => (r matches Ok(v) && rec_models(v@) == ms && final(buffer).pos
                    == end),
                Err(e) => r == Err::<Vec<DnsRecord>, DnsError>(e),
            },
    {
        let mut out: Vec<DnsRecord> = Vec::new();
        let mut i: u16 = 0;
        proof {
            assert(rec_models(out@) =~= Seq::<RecordModel>::empty());
        }
        while i < n
            invariant
                buffer.wf(),
                buffer.buf == old(buffer).buf,
                i <= n,
                parse_records(old(buffer).buf@, old(buffer).pos as int, n as int) == (
                match parse_records(buffer.buf@, buffer.pos as int, n as int - i as int) {
                    Ok((ms, end)) => Ok::<(Seq<RecordModel>, int), DnsError>(
                        (rec_models(out@) + ms, end),
                    ),
                    Err(e) => Err::<(Seq<RecordModel>, int), DnsError>(e),
                }),
            decreases n - i,
        {
            let ghost cur = parse_records(buffer.buf@, buffer.pos as int, n as int - i as int);
            let ghost acc = rec_models(out@);
            let rec = match DnsRecord::read(buffer) {
                Ok(rec) => rec,
                Err(e) => {
                    proof {
                        assert(cur == Err::<(Seq<RecordModel>, int), DnsError>(e));
                    }
                    return Err(e);
                },
            };
            out.push(rec);
            i = i + 1;
            proof {
                assert(rec_models(out@) =~= acc + seq![rec@]);
                if let Ok((rest, end)) = parse_records(
                    buffer.buf@,
                    buffer.pos as int,
                    n as int - i as int,
                ) {
                    assert(acc + (seq![rec@] + rest) =~= (acc + seq![rec@]) + rest);
                }
            }
        }
        proof {
            let acc = rec_models(out@);
            assert(acc + Seq::<RecordModel>::empty() =~= acc);
        }
        Ok(out)
    }

    /// Decode a whole message at the buffer's cursor: the header, then
    /// exactly the declared numbers of questions, answers, authority and
    /// additional records, in that fixed order.
    pub fn from_buffer(buffer: &mut BytePacketBuffer) -> (r: Result<DnsPacket, DnsError>)
        requires
            old(buffer).wf(),
        ensures
            final(buffer).wf(),
            final(buffer).buf == old(buffer).buf,
            match parse_packet(old(buffer).buf@, old(buffer).pos as int) {
                Ok((m, end)) => (r matches Ok(p) && p@ == m && final(buffer).pos == end
                    && header_wf(p.header)),
                Err(e) => r == Err::<DnsPacket, DnsError>(e),
            },
    {
        let mut result = DnsPacket::new();
        result.header.read(buffer)?;

        result.questions = Self::read_questions(buffer, result.header.questions)?;
        result.answers = Self::read_records(buffer, result.header.answers)?;
        result.authorities = Self::read_records(buffer, result.header.authoritative_entries)?;
        result.resources = Self::read_records(buffer, result.header.resource_entries)?;

        Ok(result)
    }

    /// Encode each question in order at the buffer's cursor.
    fn write_questions(buffer: &mut BytePacketBuffer, qs: &Vec<DnsQuestion>) -> (r: Result<
        (),
        DnsError,
    >)
        requires
            old(buffer).wf(),
        ensures
            final(buffer).wf(),
            ({
                let ms = qs@.map_values(|q: DnsQuestion| q@);
                (forall|j: int|
                    0 <= j < ms.len() ==> crate::buffer::labels_ok(
                        name_bytes(#[trigger] ms[j].name),
                    )) ==> (final(buffer).buf@, final(buffer).pos as nat, r is Ok) == write_all(
                    old(buffer).buf@,
                    old(buffer).pos as nat,
                    wire_questions(ms),
                ) && (r is Err ==> r == Err::<(), DnsError>(DnsError::OutOfBounds))
            }),
            ({
                let ms = qs@.map_values(|q: DnsQuestion| q@);
                !(forall|j: int|
                    0 <= j < ms.len() ==> crate::buffer::labels_ok(
                        name_bytes(#[trigger] ms[j].name),
                    )) ==> r is Err
            }),
            r is Err ==> (r == Err::<(), DnsError>(DnsError::LabelTooLong) || r == Err::<
                (),
                DnsError,
            >(DnsError::OutOfBounds)),
    {
        let ghost ms = qs@.map_values(|q: DnsQuestion| q@);
        let ghost o = old(buffer).buf@;
        let ghost po = old(buffer).pos as nat;
        let mut i: usize = 0;
        proof {
            assert(ms.take(0) =~= Seq::<QuestionModel>::empty());
        }
        while i < qs.len()
            invariant
                buffer.wf(),
                i <= qs@.len(),
                ms == qs@.map_values(|q: DnsQuestion| q@),
                ms.len() == qs@.len(),
                o == old(buffer).buf@,
                po == old(buffer).pos as nat,
                o.len() == PACKET_SIZE,
                (buffer.buf@, buffer.pos as nat, true) == write_all(
                    o,
                    po,
                    wire_questions(ms.take(i as int)),
                ),
                forall|j: int|
                    0 <= j < i ==> crate::buffer::labels_ok(name_bytes(#[trigger] ms[j].name)),
            decreases qs@.len() - i,
        {
            proof {
                lemma_wire_questions_parts(ms, i as int);
                assert(ms.skip(i as int).drop_first() =~= ms.skip(i as int + 1));
                assert(ms.skip(i as int)[0] == ms[i as int]);
                assert(wire_questions(ms.skip(i as int)) == wire_question(ms[i as int])
                    + wire_questions(ms.skip(i as int + 1)));
                lemma_write_all_split(
                    o,
                    po,
                    wire_questions(ms.take(i as int)),
                    wire_questions(ms.skip(i as int)),
                );
                let (s1, p1, ok1) = write_all(o, po, wire_questions(ms.take(i as int)));
                lemma_write_all_split(
                    s1,
                    p1,
                    wire_question(ms[i as int]),
                    wire_questions(ms.skip(i as int + 1)),
                );
                lemma_wire_questions_snoc(ms, i as int);
                lemma_write_all_split(
                    o,
                    po,
                    wire_questions(ms.take(i as int)),
                    wire_question(ms[i as int]),
                );
            }
            match qs[i].write(buffer) {
                Ok(u) => {
                },
                Err(e) => {
                    return Err(e);
                },
            }
            i = i + 1;
        }
        proof {
            assert(ms.take(ms.len() as int) =~= ms);
        }
        Ok(())
    }

    /// Encode each record in order at the buffer's cursor. Unknown records
    /// contribute nothing.
    #[verifier::rlimit(100)]
    fn write_records(buffer: &mut BytePacketBuffer, rs: &Vec<DnsRecord>) -> (r: Result<
        (),
        DnsError,
    >)
        requires
            old(buffer).wf(),
        ensures
            final(buffer).wf(),
            ({
                let ms = rec_models(rs@);
                (forall|j: int| 0 <= j < ms.len() ==> record_labels_ok(#[trigger] ms[j])) ==> ((
                r is Ok) == write_all(old(buffer).buf@, old(buffer).pos as nat, wire_records(ms)).2)
                    && (r is Ok ==> (final(buffer).buf@, final(buffer).pos as nat, true)
                    == write_all(old(buffer).buf@, old(buffer).pos as nat, wire_records(ms))) && (
                r is Err ==> r == Err::<(), DnsError>(DnsError::OutOfBounds))
            }),
            ({
                let ms = rec_models(rs@);
                !(forall|j: int| 0 <= j < ms.len() ==> record_labels_ok(#[trigger] ms[j])) ==> r
                    is Err
            }),
            r is Err ==> (r == Err::<(), DnsError>(DnsError::LabelTooLong) || r == Err::<
                (),
                DnsError,
            >(DnsError::OutOfBounds)),
    {
        let ghost ms = rec_models(rs@);
        let ghost o = old(buffer).buf@;
        let ghost po = old(buffer).pos as nat;
        let mut i: usize = 0;
        proof {
            assert(ms.take(0) =~= Seq::<RecordModel>::empty());
        }
        while i < rs.len()
            invariant
                buffer.wf(),
                i <= rs@.len(),
                ms == rec_models(rs@),
                ms.len() == rs@.len(),
                o == old(buffer).buf@,
                po == old(buffer).pos as nat,
                o.len() == PACKET_SIZE,
                (buffer.buf@, buffer.pos as nat, true) == write_all(
                    o,
                    po,
                    wire_records(ms.take(i as int)),
                ),
                forall|j: int| 0 <= j < i ==> record_labels_ok(#[trigger] ms[j]),
            decreases rs@.len() - i,
        {
            proof {
                lemma_wire_records_parts(ms, i as int);
                assert(ms.skip(i as int).drop_first() =~= ms.skip(i as int + 1));
                assert(ms.skip(i as int)[0] == ms[i as int]);
                assert(wire_records(ms.skip(i as int)) == wire_record(ms[i as int]) + wire_records(
                    ms.skip(i as int + 1),
                ));
                lemma_write_all_split(
                    o,
                    po,
                    wire_records(ms.take(i as int)),
                    wire_records(ms.skip(i as int)),
                );
                let (s1, p1, ok1) = write_all(o, po, wire_records(ms.take(i as int)));
                lemma_write_all_split(
                    s1,
                    p1,
                    wire_record(ms[i as int]),
                    wire_records(ms.skip(i as int + 1)),
                );
                lemma_wire_records_snoc(ms, i as int);
                lemma_write_all_split(
                    o,
                    po,
                    wire_records(ms.take(i as int)),
                    wire_record(ms[i as int]),
                );
                // An unknown record writes nothing, matching its empty wire.
                if ms[i as int] matches RecordModel::UNKNOWN { .. } {
                    assert(wire_record(ms[i as int]) =~= Seq::<u8>::empty());
                }
            }
            match rs[i].write(buffer) {
                Ok(u) => {
                },
                Err(e) => {
                    proof {
                        if forall|j: int| 0 <= j < ms.len() ==> record_labels_ok(
                            #[trigger] ms[j],
                        ) {
                            crate::record::lemma_wire_record_len(ms[i as int]);
                            let (s1, p1, ok1) = write_all(
                                o,
                                po,
                                wire_records(ms.take(i as int)),
                            );
                            lemma_write_all_fail(s1, p1, wire_record(ms[i as int]));
                        }
                    }
                    return Err(e);
                },
            }
            i = i + 1;
        }
        proof {
            assert(ms.take(ms.len() as int) =~= ms);
        }
        Ok(())
    }

    /// Encode the whole message at the buffer's cursor. All four header
    /// counts are recomputed from the current section lengths first — the
    /// wire format's 16-bit count fields bound each section — then the
    /// header and the sections are written in fixed order.
    pub fn write(&mut self, buffer: &mut BytePacketBuffer) -> (r: Result<(), DnsError>)
        requires
            old(buffer).wf(),
            header_wf(old(self).header),
            old(self).questions@.len() <= u16::MAX,
            old(self).answers@.len() <= u16::MAX,
            old(self).authorities@.len() <= u16::MAX,
            old(self).resources@.len() <= u16::MAX,
        ensures
            final(buffer).wf(),
            final(self).questions == old(self).questions,
            final(self).answers == old(self).answers,
            final(self).authorities == old(self).authorities,
            final(self).resources == old(self).resources,
            final(self).header == (DnsHeader {
                questions: old(self).questions@.len() as u16,
                answers: old(self).answers@.len() as u16,
                authoritative_entries: old(self).authorities@.len() as u16,
                resource_entries: old(self).resources@.len() as u16,
                ..old(self).header
            }),
            header_wf(final(self).header),
            packet_labels_ok(final(self)@) ==> ((r is Ok) == write_all(
                old(buffer).buf@,
                old(buffer).pos as nat,
                wire_packet(final(self)@),
            ).2) && (r is Ok ==> (final(buffer).buf@, final(buffer).pos as nat, true) == write_all(
                old(buffer).buf@,
                old(buffer).pos as nat,
                wire_packet(final(self)@),
            )) && (r is Err ==> r == Err::<(), DnsError>(DnsError::OutOfBounds)),
            !packet_labels_ok(final(self)@) ==> r is Err,
            r is Err ==> (r == Err::<(), DnsError>(DnsError::LabelTooLong) || r == Err::<
                (),
                DnsError,
            >(DnsError::OutOfBounds)),
    {
        self.header.questions = self.questions.len() as u16;
        self.header.answers = self.answers.len() as u16;
        self.header.authoritative_entries = self.authorities.len() as u16;
        self.header.resource_entries = self.resources.len() as u16;

        let ghost m = self@;
        let ghost o = old(buffer).buf@;
        let ghost po = old(buffer).pos as nat;
        proof {
            let wh = wire_header(m.header);
            let wq = wire_questions(m.questions);
            let wa = wire_records(m.answers);
            let wu = wire_records(m.authorities);
            let wr = wire_records(m.resources);
            assert(wire_packet(m) =~= wh + (wq + (wa + (wu + wr))));
            lemma_write_all_split(o, po, wh, wq + (wa + (wu + wr)));
            let (s1, p1, ok1) = write_all(o, po, wh);
            lemma_write_all_split(s1, p1, wq, wa + (wu + wr));
            let (s2, p2, ok2) = write_all(s1, p1, wq);
            lemma_write_all_split(s2, p2, wa, wu + wr);
            let (s3, p3, ok3) = write_all(s2, p2, wa);
            lemma_write_all_split(s3, p3, wu, wr);
        }
        self.header.write(buffer)?;
        Self::write_questions(buffer, &self.questions)?;
        Self::write_records(buffer, &self.answers)?;
        Self::write_records(buffer, &self.authorities)?;
        Self::write_records(buffer, &self.resources)?;
        Ok(())
    }

    /// The first address found among the answer records, IPv4 or IPv6 —
    /// used to pick the server a nested lookup discovered.
    pub fn pick_one_server(&self) -> (r: Option<IpAddress>)
        ensures
            r == first_server_from(self@.answers, 0),
    {
        let mut i: usize = 0;
        while i < self.answers.len()
            invariant
                i <= self.answers@.len(),
                first_server_from(self@.answers, 0) == first_server_from(self@.answers, i as int),
            decreases self.answers@.len() - i,
        {
            match &self.answers[i] {
                DnsRecord::A { addr, .. } => {
                    return Some(IpAddress::V4(*addr));
                },
                DnsRecord::AAAA { addr, .. } => {
                    return Some(IpAddress::V6(*addr));
                },
                _ => {
                },
            }
            i = i + 1;
        }
        None
    }

    /// The first IPv4 answer record's address. Selection is deterministic:
    /// the first match in section order.
    pub fn get_random_ipv4(&self) -> (r: Option<u32>)
        ensures
            r == first_a_from(self@.answers, 0),
    {
        let mut i: usize = 0;
        while i < self.answers.len()
            invariant
                i <= self.answers@.len(),
                first_a_from(self@.answers, 0) == first_a_from(self@.answers, i as int),
            decreases self.answers@.len() - i,
        {
            match &self.answers[i] {
                DnsRecord::A { addr, .. } => {
                    return Some(*addr);
                },
                _ => {
                },
            }
            i = i + 1;
        }
        None
    }

    /// The first IPv6 answer record's address. Selection is deterministic:
    /// the first match in section order.
    pub fn get_random_ipv6(&self) -> (r: Option<crate::record::Ipv6Address>)
        ensures
            r == first_aaaa_from(self@.answers, 0),
    {
        let mut i: usize = 0;
        while i < self.answers.len()
            invariant
                i <= self.answers@.len(),
                first_aaaa_from(self@.answers, 0) == first_aaaa_from(self@.answers, i as int),
            decreases self.answers@.len() - i,
        {
            match &self.answers[i] {
                DnsRecord::AAAA { addr, .. } => {
                    return Some(*addr);
                },
                _ => {
                },
            }
            i = i + 1;
        }
        None
    }

    /// The first glue address for `host` in the additional section.
    fn find_glue(&self, host: &String) -> (r: Option<IpAddress>)
        ensures
            r == glue_from(host@, self@.resources, 0),
    {
        let mut i: usize = 0;
        while i < self.resources.len()
            invariant
                i <= self.resources@.len(),
                glue_from(host@, self@.resources, 0) == glue_from(
                    host@,
                    self@.resources,
                    i as int,
                ),
            decreases self.resources@.len() - i,
        {
            match &self.resources[i] {
                DnsRecord::A { domain, addr, .. } => {
                    if (*domain).eq(host) {
                        return Some(IpAddress::V4(*addr));
                    }
                },
                DnsRecord::AAAA { domain, addr, .. } => {
                    if (*domain).eq(host) {
                        return Some(IpAddress::V6(*addr));
                    }
                },
                _ => {
                },
            }
            i = i + 1;
        }
        None
    }

    /// The first glue-resolved delegate address for `qname`: a name-server
    /// record whose domain is a suffix of the query name and whose host has
    /// an address record in the additional section.
    pub fn get_resolved_ns(&self, qname: &str) -> (r: Option<IpAddress>)
        ensures
            r == resolved_ns_from(qname@, self@.authorities, self@.resources, 0),
    {
        let mut i: usize = 0;
        while i < self.authorities.len()
            invariant
                i <= self.authorities@.len(),
                resolved_ns_from(qname@, self@.authorities, self@.resources, 0)
                    == resolved_ns_from(qname@, self@.authorities, self@.resources, i as int),
            decreases self.authorities@.len() - i,
        {
            match &self.authorities[i] {
                DnsRecord::NS { domain, host, .. } => {
                    // Discard servers not authoritative for the query.
                    if name_ends_with(qname, domain.as_str()) {
                        if let Some(ip) = self.find_glue(host) {
                            return Some(ip);
                        }
                    }
                },
                _ => {
                },
            }
            i = i + 1;
        }
        None
    }

    /// The first relevant delegated host lacking a glue record in the
    /// additional section: the delegate whose address must be found with a
    /// nested lookup.
    pub fn get_unresolved_ns<'a>(&'a self, qname: &'a str) -> (r: Option<&'a String>)
        ensures
            match r {
                Some(host) => unresolved_ns_from(qname@, self@.authorities, self@.resources, 0)
                    == Some(host@),
                None => unresolved_ns_from(qname@, self@.authorities, self@.resources, 0) is None,
            },
    {
        let mut i: usize = 0;
        while i < self.authorities.len()
            invariant
                i <= self.authorities@.len(),
                unresolved_ns_from(qname@, self@.authorities, self@.resources, 0)
                    == unresolved_ns_from(qname@, self@.authorities, self@.resources, i as int),
            decreases self.authorities@.len() - i,
        {
            match &self.authorities[i] {
                DnsRecord::NS { domain, host, .. } => {
                    if name_ends_with(qname, domain.as_str()) {
                        if self.find_glue(host).is_none() {
                            return Some(host);
                        }
                    }
                },
                _ => {
                },
            }
            i = i + 1;
        }
        None
    }
}

} // verus!
