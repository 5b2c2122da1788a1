//! Resource records: a closed set of typed DNS entries, each with its own
//! decode and encode rule, plus an opaque variant for unknown type codes.

use crate::buffer::{
    be16, be32, be_at, labels_ok, lemma_backpatch, lemma_qname_wire_nonempty, lemma_write_all_fail,
    lemma_write_all_ok, lemma_write_all_split, parse_name, qname_wire, write_all, BytePacketBuffer,
    PACKET_SIZE, WRITE_LIMIT,
};
use crate::qtype::{qt_num, qt_of_num, QueryType};
use crate::DnsError;
use vstd::prelude::*;

verus! {

/// An IPv6 address as its eight 16-bit groups.
#[derive(Debug, Clone, Copy, PartialEq, Eq, Hash, Structural)]
pub struct Ipv6Address {
    pub g0: u16,
    pub g1: u16,
    pub g2: u16,
    pub g3: u16,
    pub g4: u16,
    pub g5: u16,
    pub g6: u16,
    pub g7: u16,
}

/// An address found in a record: an IPv4 address as its 32-bit value, or
/// an IPv6 address as its groups.
#[derive(Debug, Clone, Copy, PartialEq, Eq, Hash, Structural)]
pub enum IpAddress {
    V4(u32),
    V6(Ipv6Address),
}

/// One resource record. Unknown type codes keep their code, declared
/// data length and ttl, but no payload.
#[derive(Debug, Clone, PartialEq, Eq, Hash)]
pub enum DnsRecord {
    UNKNOWN { domain: String, qtype: u16, data_len: u16, ttl: u32 },
    A { domain: String, addr: u32, ttl: u32 },
    NS { domain: String, host: String, ttl: u32 },
    CNAME { domain: String, host: String, ttl: u32 },
    SOA {
        domain: String,
        ttl: u32,
        mname: String,
        rname: String,
        serial: u32,
        refresh: u32,
        retry: u32,
        expire: u32,
        minimum: u32,
    },
    MX { domain: String, priority: u16, host: String, ttl: u32 },
    AAAA { domain: String, addr: Ipv6Address, ttl: u32 },
}

/// The mathematical content of a record, with names as character
/// sequences.
pub enum RecordModel {
    UNKNOWN { domain: Seq<char>, qtype: u16, data_len: u16, ttl: u32 },
    A { domain: Seq<char>, addr: u32, ttl: u32 },
    NS { domain: Seq<char>, host: Seq<char>, ttl: u32 },
    CNAME { domain: Seq<char>, host: Seq<char>, ttl: u32 },
    SOA {
        domain: Seq<char>,
        ttl: u32,
        mname: Seq<char>,
        rname: Seq<char>,
        serial: u32,
        refresh: u32,
        retry: u32,
        expire: u32,
        minimum: u32,
    },
    MX { domain: Seq<char>, priority: u16, host: Seq<char>, ttl: u32 },
    AAAA { domain: Seq<char>, addr: Ipv6Address, ttl: u32 },
}

impl View for DnsRecord {
    type V = RecordModel;

    open spec fn view(&self) -> RecordModel {
        match *self {
            DnsRecord::UNKNOWN { domain, qtype, data_len, ttl } => RecordModel::UNKNOWN {
                domain: domain@,
                qtype,
                data_len,
                ttl,
            },
            DnsRecord::A { domain, addr, ttl } => RecordModel::A { domain: domain@, addr, ttl },
            DnsRecord::NS { domain, host, ttl } => RecordModel::NS {
                domain: domain@,
                host: host@,
                ttl,
            },
            DnsRecord::CNAME { domain, host, ttl } => RecordModel::CNAME {
                domain: domain@,
                host: host@,
                ttl,
            },
            DnsRecord::SOA { domain, ttl, mname, rname, serial, refresh, retry, expire, minimum } => RecordModel::SOA {
                domain: domain@,
                ttl,
                mname: mname@,
                rname: rname@,
                serial,
                refresh,
                retry,
                expire,
                minimum,
            },
            DnsRecord::MX { domain, priority, host, ttl } => RecordModel::MX {
                domain: domain@,
                priority,
                host: host@,
                ttl,
            },
            DnsRecord::AAAA { domain, addr, ttl } => RecordModel::AAAA {
                domain: domain@,
                addr,
                ttl,
            },
        }
    }
}

/// The UTF-8 bytes of a name's characters: what encoding writes.
pub open spec fn name_bytes(s: Seq<char>) -> Seq<u8> {
    vstd::utf8::encode_utf8(s)
}

/// The record decoded from `bytes` at `pos`: its model and the position
/// after it. The uniform prelude is name, type code, class (discarded),
/// ttl and declared data length; the payload depends on the type, and an
/// unknown type skips exactly `data_len` bytes.
pub open spec fn parse_record(bytes: Seq<u8>, pos: int) -> Result<(RecordModel, int), DnsError> {
    match parse_name(bytes, pos, 0) {
        Err(e) => Err(e),
        Ok((domain, p1)) => if p1 + 10 > PACKET_SIZE {
            Err(DnsError::OutOfBounds)
        } else {
            let qnum = be_at(bytes, p1, 2) as u16;
            let ttl = be_at(bytes, p1 + 4, 4) as u32;
            let data_len = be_at(bytes, p1 + 8, 2) as u16;
            let p2 = p1 + 10;
            match qt_of_num(qnum) {
                QueryType::A => if p2 + 4 > PACKET_SIZE {
                    Err(DnsError::OutOfBounds)
                } else {
                    Ok(
                        (
                            RecordModel::A { domain, addr: be_at(bytes, p2, 4) as u32, ttl },
                            p2 + 4,
                        ),
                    )
                },
                QueryType::NS => match parse_name(bytes, p2, 0) {
                    Err(e) => Err(e),
                    Ok((host, p3)) => Ok((RecordModel::NS { domain, host, ttl }, p3)),
                },
                QueryType::CNAME => match parse_name(bytes, p2, 0) {
                    Err(e) => Err(e),
                    Ok((host, p3)) => Ok((RecordModel::CNAME { domain, host, ttl }, p3)),
                },
                QueryType::SOA => match parse_name(bytes, p2, 0) {
                    Err(e) => Err(e),
                    Ok((mname, p3)) => match parse_name(bytes, p3, 0) {
                        Err(e) => Err(e),
                        Ok((rname, p4)) => if p4 + 20 > PACKET_SIZE {
                            Err(DnsError::OutOfBounds)
                        } else {
                            Ok(
                                (
                                    RecordModel::SOA {
                                        domain,
                                        ttl,
                                        mname,
                                        rname,
                                        serial: be_at(bytes, p4, 4) as u32,
                                        refresh: be_at(bytes, p4 + 4, 4) as u32,
                                        retry: be_at(bytes, p4 + 8, 4) as u32,
                                        expire: be_at(bytes, p4 + 12, 4) as u32,
                                        minimum: be_at(bytes, p4 + 16, 4) as u32,
                                    },
                                    p4 + 20,
                                ),
                            )
                        },
                    },
                },
                QueryType::MX => if p2 + 2 > PACKET_SIZE {
                    Err(DnsError::OutOfBounds)
                } else {
                    match parse_name(bytes, p2 + 2, 0) {
                        Err(e) => Err(e),
                        Ok((host, p3)) => Ok(
                            (
                                RecordModel::MX {
                                    domain,
                                    priority: be_at(bytes, p2, 2) as u16,
                                    host,
                                    ttl,
                                },
                                p3,
                            ),
                        ),
                    }
                },
                QueryType::AAAA => if p2 + 16 > PACKET_SIZE {
                    Err(DnsError::OutOfBounds)
                } else {
                    Ok(
                        (
                            RecordModel::AAAA {
                                domain,
                                ttl,
                                addr: Ipv6Address {
                                    g0: be_at(bytes, p2, 2) as u16,
                                    g1: be_at(bytes, p2 + 2, 2) as u16,
                                    g2: be_at(bytes, p2 + 4, 2) as u16,
                                    g3: be_at(bytes, p2 + 6, 2) as u16,
                                    g4: be_at(bytes, p2 + 8, 2) as u16,
                                    g5: be_at(bytes, p2 + 10, 2) as u16,
                                    g6: be_at(bytes, p2 + 12, 2) as u16,
                                    g7: be_at(bytes, p2 + 14, 2) as u16,
                                },
                            },
                            p2 + 16,
                        ),
                    )
                },
                QueryType::UNKNOWN(_) => Ok(
                    (
                        RecordModel::UNKNOWN { domain, qtype: qnum, data_len, ttl },
                        p2 + data_len,
                    ),
                ),
            }
        },
    }
}

/// The uniform encoded prelude of a record: name, type code, class 1, ttl.
pub open spec fn rr_prelude(domain: Seq<char>, qnum: u16, ttl: u32) -> Seq<u8> {
    qname_wire(name_bytes(domain)) + be16(qnum) + be16(1) + be32(ttl)
}

/// The payload that follows the length field of a record's wire form.
/// An unknown record has no wire form at all.
pub open spec fn rr_payload(m: RecordModel) -> Seq<u8> {
    match m {
        RecordModel::UNKNOWN { .. } => seq![],
        RecordModel::A { addr, .. } => be32(addr),
        RecordModel::NS { host, .. } => qname_wire(name_bytes(host)),
        RecordModel::CNAME { host, .. } => qname_wire(name_bytes(host)),
        RecordModel::SOA { mname, rname, serial, refresh, retry, expire, minimum, .. } => qname_wire(
            name_bytes(mname),
        ) + qname_wire(name_bytes(rname)) + be32(serial) + be32(refresh) + be32(retry) + be32(
            expire,
        ) + be32(minimum),
        RecordModel::MX { priority, host, .. } => be16(priority) + qname_wire(name_bytes(host)),
        RecordModel::AAAA { addr, .. } => be16(addr.g0) + be16(addr.g1) + be16(addr.g2) + be16(
            addr.g3,
        ) + be16(addr.g4) + be16(addr.g5) + be16(addr.g6) + be16(addr.g7),
    }
}

/// The full wire form of a record: prelude, length field, payload.
/// Unknown records are deliberately omitted from output.
pub open spec fn wire_record(m: RecordModel) -> Seq<u8> {
    match m {
        RecordModel::UNKNOWN { .. } => seq![],
        RecordModel::A { domain, ttl, .. } => rr_prelude(domain, 1, ttl) + be16(4) + rr_payload(m),
        RecordModel::NS { domain, ttl, .. } => rr_prelude(domain, 2, ttl) + be16(
            rr_payload(m).len() as u16,
        ) + rr_payload(m),
        RecordModel::CNAME { domain, ttl, .. } => rr_prelude(domain, 5, ttl) + be16(
            rr_payload(m).len() as u16,
        ) + rr_payload(m),
        RecordModel::SOA { domain, ttl, .. } => rr_prelude(domain, 6, ttl) + be16(
            rr_payload(m).len() as u16,
        ) + rr_payload(m),
        RecordModel::MX { domain, ttl, .. } => rr_prelude(domain, 15, ttl) + be16(
            rr_payload(m).len() as u16,
        ) + rr_payload(m),
        RecordModel::AAAA { domain, ttl, .. } => rr_prelude(domain, 28, ttl) + be16(16)
            + rr_payload(m),
    }
}

/// True if every name of the record has labels of at most 63 bytes.
pub open spec fn record_labels_ok(m: RecordModel) -> bool {
    match m {
        RecordModel::UNKNOWN { .. } => true,
        RecordModel::A { domain, .. } => labels_ok(name_bytes(domain)),
        RecordModel::NS { domain, host, .. } => labels_ok(name_bytes(domain)) && labels_ok(
            name_bytes(host),
        ),
        RecordModel::CNAME { domain, host, .. } => labels_ok(name_bytes(domain)) && labels_ok(
            name_bytes(host),
        ),
        RecordModel::SOA { domain, mname, rname, .. } => labels_ok(name_bytes(domain))
            && labels_ok(name_bytes(mname)) && labels_ok(name_bytes(rname)),
        RecordModel::MX { domain, host, .. } => labels_ok(name_bytes(domain)) && labels_ok(
            name_bytes(host),
        ),
        RecordModel::AAAA { domain, .. } => labels_ok(name_bytes(domain)),
    }
}

/// Write the uniform record prelude: name, type code, class 1, ttl.
fn write_rr_prelude(buffer: &mut BytePacketBuffer, domain: &str, qnum: u16, ttl: u32) -> (r:
    Result<(), DnsError>)
    requires
        old(buffer).wf(),
    ensures
        final(buffer).wf(),
        !labels_ok(name_bytes(domain@)) ==> r == Err::<(), DnsError>(DnsError::LabelTooLong)
            && *final(buffer) == *old(buffer),
        labels_ok(name_bytes(domain@)) ==> (final(buffer).buf@, final(buffer).pos as nat, r is Ok)
            == write_all(old(buffer).buf@, old(buffer).pos as nat, rr_prelude(domain@, qnum, ttl))
            && (r is Err ==> r == Err::<(), DnsError>(DnsError::OutOfBounds)),
{
    proof {
        let o = old(buffer).buf@;
        let po = old(buffer).pos as nat;
        let q = qname_wire(name_bytes(domain@));
        assert(rr_prelude(domain@, qnum, ttl) =~= q + (be16(qnum) + (be16(1) + be32(ttl))));
        lemma_write_all_split(o, po, q, be16(qnum) + (be16(1) + be32(ttl)));
        let (s1, p1, ok1) = write_all(o, po, q);
        lemma_write_all_split(s1, p1, be16(qnum), be16(1) + be32(ttl));
        let (s2, p2, ok2) = write_all(s1, p1, be16(qnum));
        lemma_write_all_split(s2, p2, be16(1), be32(ttl));
    }
    buffer.write_qname(domain)?;
    buffer.write_u16(qnum)?;
    buffer.write_u16(1)?;
    buffer.write_u32(ttl)?;
    Ok(())
}

/// Every known record's wire form is nonempty (it starts with a name).
pub proof fn lemma_wire_record_len(m: RecordModel)
    ensures
        !(m matches RecordModel::UNKNOWN { .. }) ==> wire_record(m).len() > 0,
{
    match m {
        RecordModel::UNKNOWN { .. } => {
        },
        RecordModel::A { domain, .. } => {
            lemma_qname_wire_nonempty(name_bytes(domain), 0);
        },
        RecordModel::NS { domain, .. } => {
            lemma_qname_wire_nonempty(name_bytes(domain), 0);
        },
        RecordModel::CNAME { domain, .. } => {
            lemma_qname_wire_nonempty(name_bytes(domain), 0);
        },
        RecordModel::SOA { domain, .. } => {
            lemma_qname_wire_nonempty(name_bytes(domain), 0);
        },
        RecordModel::MX { domain, .. } => {
            lemma_qname_wire_nonempty(name_bytes(domain), 0);
        },
        RecordModel::AAAA { domain, .. } => {
            lemma_qname_wire_nonempty(name_bytes(domain), 0);
        },
    }
}

impl DnsRecord {
    /// Decode one record at the buffer's cursor. A record with an unknown
    /// type code is structurally consumed — the cursor advances by exactly
    /// its declared data length — but its payload is not kept.
    pub fn read(buffer: &mut BytePacketBuffer) -> (r: Result<DnsRecord, DnsError>)
        requires
            old(buffer).wf(),
        ensures
            final(buffer).wf(),
            final(buffer).buf == old(buffer).buf,
            match parse_record(old(buffer).buf@, old(buffer).pos as int) {
                Ok((m, end)) => (r matches Ok(rec) && rec@ == m && final(buffer).pos == end),
                Err(e) => r == Err::<DnsRecord, DnsError>(e),
            },
    {
        let domain = buffer.read_qname()?;

        let qtype_num = buffer.read_u16()?;
        let qtype = QueryType::from_num(qtype_num);

        let _ = buffer.read_u16()?;
        let ttl = buffer.read_u32()?;
        let data_len = buffer.read_u16()?;

        match qtype {
            QueryType::A => {
                let raw_addr = buffer.read_u32()?;
                Ok(DnsRecord::A { domain, addr: raw_addr, ttl })
            },
            QueryType::NS => {
                let ns = buffer.read_qname()?;
                Ok(DnsRecord::NS { domain, host: ns, ttl })
            },
            QueryType::CNAME => {
                let cname = buffer.read_qname()?;
                Ok(DnsRecord::CNAME { domain, host: cname, ttl })
            },
            QueryType::SOA => {
                let mname = buffer.read_qname()?;
                let rname = buffer.read_qname()?;
                let serial = buffer.read_u32()?;
                let refresh = buffer.read_u32()?;
                let retry = buffer.read_u32()?;
                let expire = buffer.read_u32()?;
                let minimum = buffer.read_u32()?;
                Ok(
                    DnsRecord::SOA {
                        domain,
                        ttl,
                        mname,
                        rname,
                        serial,
                        refresh,
                        retry,
                        expire,
                        minimum,
                    },
                )
            },
            QueryType::MX => {
                let priority = buffer.read_u16()?;
                let mx = buffer.read_qname()?;
                Ok(DnsRecord::MX { domain, priority, host: mx, ttl })
            },
            QueryType::AAAA => {
                let g0 = buffer.read_u16()?;
                let g1 = buffer.read_u16()?;
                let g2 = buffer.read_u16()?;
                let g3 = buffer.read_u16()?;
                let g4 = buffer.read_u16()?;
                let g5 = buffer.read_u16()?;
                let g6 = buffer.read_u16()?;
                let g7 = buffer.read_u16()?;
                Ok(
                    DnsRecord::AAAA {
                        domain,
                        addr: Ipv6Address { g0, g1, g2, g3, g4, g5, g6, g7 },
                        ttl,
                    },
                )
            },
            QueryType::UNKNOWN(_) => {
                buffer.step(data_len as usize)?;

                Ok(DnsRecord::UNKNOWN { domain, qtype: qtype_num, data_len, ttl })
            },
        }
    }

    /// Encode one record at the buffer's cursor, returning the number of
    /// bytes written. Variable-length payloads are written after a
    /// placeholder length field that is backpatched with the true count.
    /// An unknown record is deliberately skipped, not an error.
    #[verifier::rlimit(100)]
    pub fn write(&self, buffer: &mut BytePacketBuffer) -> (r: Result<usize, DnsError>)
        requires
            old(buffer).wf(),
        ensures
            final(buffer).wf(),
            (self@ matches RecordModel::UNKNOWN { .. }) ==> r == Ok::<usize, DnsError>(0)
                && *final(buffer) == *old(buffer),
            !(self@ matches RecordModel::UNKNOWN { .. }) ==> ((r is Ok) <==> (record_labels_ok(
                self@,
            ) && old(buffer).pos + wire_record(self@).len() <= WRITE_LIMIT)),
            !(self@ matches RecordModel::UNKNOWN { .. }) && r is Ok ==> (
                final(buffer).buf@,
                final(buffer).pos as nat,
                true,
            ) == write_all(old(buffer).buf@, old(buffer).pos as nat, wire_record(self@)) && r
                == Ok::<usize, DnsError>(wire_record(self@).len() as usize),
            r is Err ==> (r == Err::<usize, DnsError>(DnsError::LabelTooLong) || r == Err::<
                usize,
                DnsError,
            >(DnsError::OutOfBounds)),
            record_labels_ok(self@) ==> (r is Err ==> r == Err::<usize, DnsError>(
                DnsError::OutOfBounds,
            )),
    {
        let start_pos = buffer.pos();
        let ghost o = old(buffer).buf@;
        let ghost po = old(buffer).pos as nat;
        let ghost w = wire_record(self@);

        match *self {
            DnsRecord::A { ref domain, addr, ttl } => self.write_a(buffer, domain, addr, ttl),
            DnsRecord::NS { ref domain, ref host, ttl } => {
                self.write_patched(buffer, domain, host, 2, ttl)
            },
            DnsRecord::CNAME { ref domain, ref host, ttl } => {
                self.write_patched(buffer, domain, host, 5, ttl)
            },
            DnsRecord::SOA {
                ref domain,
                ttl,
                ref mname,
                ref rname,
                serial,
                refresh,
                retry,
                expire,
                minimum,
            } => self.write_soa(
                buffer,
                domain,
                ttl,
                mname,
                rname,
                serial,
                refresh,
                retry,
                expire,
                minimum,
            ),
            DnsRecord::MX { ref domain, priority, ref host, ttl } => self.write_mx(buffer, domain, priority, host, ttl),
            DnsRecord::AAAA { ref domain, ref addr, ttl } => self.write_aaaa(buffer, domain, addr, ttl),
            DnsRecord::UNKNOWN { .. } => {
                // Deliberately skipped: unknown records are not
                // re-serialized, and this is a no-op, not an error.
                Ok(0)
            },
        }
    }


    /// Encode an IPv4 address record: fixed 4-byte payload.
    #[verifier::rlimit(100)]
    fn write_a(&self, buffer: &mut BytePacketBuffer, domain: &String, addr: u32, ttl: u32) -> (r:
        Result<usize, DnsError>)
        requires
            old(buffer).wf(),
            self@ == (RecordModel::A { domain: domain@, addr, ttl }),
        ensures
            final(buffer).wf(),
            (r is Ok) <==> (record_labels_ok(self@) && old(buffer).pos + wire_record(self@).len()
                <= WRITE_LIMIT),
            r is Ok ==> (final(buffer).buf@, final(buffer).pos as nat, true) == write_all(
                old(buffer).buf@,
                old(buffer).pos as nat,
                wire_record(self@),
            ) && r == Ok::<usize, DnsError>(wire_record(self@).len() as usize),
            r is Err ==> (r == Err::<usize, DnsError>(DnsError::LabelTooLong) || r == Err::<
                usize,
                DnsError,
            >(DnsError::OutOfBounds)),
            record_labels_ok(self@) ==> (r is Err ==> r == Err::<usize, DnsError>(
                DnsError::OutOfBounds,
            )),
    {
        let start_pos = buffer.pos();
        let ghost o = old(buffer).buf@;
        let ghost po = old(buffer).pos as nat;
        let ghost w = wire_record(self@);
        let ghost pre = rr_prelude(domain@, 1, ttl);
        proof {
            assert(w =~= pre + (be16(4) + be32(addr)));
            lemma_write_all_split(o, po, pre, be16(4) + be32(addr));
            let (s1, p1, ok1) = write_all(o, po, pre);
            lemma_write_all_split(s1, p1, be16(4), be32(addr));
            lemma_write_all_fail(o, po, w);
        }
        write_rr_prelude(buffer, domain.as_str(), 1, ttl)?;
        buffer.write_u16(4)?;
        buffer.write_u32(addr)?;
        proof {
            lemma_write_all_ok(o, po, w);
        }
        Ok(buffer.pos() - start_pos)
    }

    /// Encode a start-of-authority record: two names and five intervals,
    /// with the length field backpatched.
    #[verifier::rlimit(100)]
    fn write_soa(&self, buffer: &mut BytePacketBuffer, domain: &String, ttl: u32, mname: &String,
        rname: &String, serial: u32, refresh: u32, retry: u32, expire: u32, minimum: u32) -> (r:
        Result<usize, DnsError>)
        requires
            old(buffer).wf(),
            self@ == (RecordModel::SOA {
                domain: domain@,
                ttl,
                mname: mname@,
                rname: rname@,
                serial,
                refresh,
                retry,
                expire,
                minimum,
            }),
        ensures
            final(buffer).wf(),
            (r is Ok) <==> (record_labels_ok(self@) && old(buffer).pos + wire_record(self@).len()
                <= WRITE_LIMIT),
            r is Ok ==> (final(buffer).buf@, final(buffer).pos as nat, true) == write_all(
                old(buffer).buf@,
                old(buffer).pos as nat,
                wire_record(self@),
            ) && r == Ok::<usize, DnsError>(wire_record(self@).len() as usize),
            r is Err ==> (r == Err::<usize, DnsError>(DnsError::LabelTooLong) || r == Err::<
                usize,
                DnsError,
            >(DnsError::OutOfBounds)),
            record_labels_ok(self@) ==> (r is Err ==> r == Err::<usize, DnsError>(
                DnsError::OutOfBounds,
            )),
    {
        let start_pos = buffer.pos();
        let ghost o = old(buffer).buf@;
        let ghost po = old(buffer).pos as nat;
        let ghost w = wire_record(self@);
        let ghost pre = rr_prelude(domain@, 6, ttl);
        let ghost pay = rr_payload(self@);
        let ghost w0 = pre + be16(0) + pay;
        proof {
            lemma_qname_wire_nonempty(name_bytes(mname@), 0);
            assert(w =~= pre + be16(pay.len() as u16) + pay);
            assert(w0 =~= pre + (be16(0) + pay));
            lemma_write_all_split(o, po, pre, be16(0) + pay);
            let (s1, p1, ok1) = write_all(o, po, pre);
            lemma_write_all_split(s1, p1, be16(0), pay);
            let (s2, p2, ok2) = write_all(s1, p1, be16(0));
            let qm = qname_wire(name_bytes(mname@));
            let qr = qname_wire(name_bytes(rname@));
            assert(pay =~= qm + (qr + (be32(serial) + (be32(refresh) + (be32(retry) + (
            be32(expire) + be32(minimum)))))));
            lemma_write_all_split(s2, p2, qm, qr + (be32(serial) + (be32(refresh) + (be32(
                retry,
            ) + (be32(expire) + be32(minimum))))));
            let (s3, p3, ok3) = write_all(s2, p2, qm);
            lemma_write_all_split(s3, p3, qr, be32(serial) + (be32(refresh) + (be32(retry)
                + (be32(expire) + be32(minimum)))));
            let (s4, p4, ok4) = write_all(s3, p3, qr);
            lemma_write_all_split(s4, p4, be32(serial), be32(refresh) + (be32(retry) + (
            be32(expire) + be32(minimum))));
            let (s5, p5, ok5) = write_all(s4, p4, be32(serial));
            lemma_write_all_split(s5, p5, be32(refresh), be32(retry) + (be32(expire)
                + be32(minimum)));
            let (s6, p6, ok6) = write_all(s5, p5, be32(refresh));
            lemma_write_all_split(s6, p6, be32(retry), be32(expire) + be32(minimum));
            let (s7, p7, ok7) = write_all(s6, p6, be32(retry));
            lemma_write_all_split(s7, p7, be32(expire), be32(minimum));
            lemma_write_all_fail(o, po, w0);
            lemma_qname_wire_nonempty(name_bytes(domain@), 0);
        }
        write_rr_prelude(buffer, domain.as_str(), 6, ttl)?;
        let pos = buffer.pos();
        buffer.write_u16(0)?;
        buffer.write_qname(mname.as_str())?;
        buffer.write_qname(rname.as_str())?;
        buffer.write_u32(serial)?;
        buffer.write_u32(refresh)?;
        buffer.write_u32(retry)?;
        buffer.write_u32(expire)?;
        buffer.write_u32(minimum)?;
        proof {
            lemma_write_all_ok(o, po, w0);
            lemma_write_all_ok(o, po, pre);
        }
        let size = buffer.pos() - (pos + 2);
        proof {
            lemma_backpatch(o, po, pre, pay, size as u16);
        }
        buffer.set_u16(pos, size as u16)?;
        Ok(buffer.pos() - start_pos)
    }

    /// Encode a mail-exchange record: preference then host name, with the
    /// length field backpatched.
    #[verifier::rlimit(100)]
    fn write_mx(&self, buffer: &mut BytePacketBuffer, domain: &String, priority: u16,
        host: &String, ttl: u32) -> (r: Result<usize, DnsError>)
        requires
            old(buffer).wf(),
            self@ == (RecordModel::MX { domain: domain@, priority, host: host@, ttl }),
        ensures
            final(buffer).wf(),
            (r is Ok) <==> (record_labels_ok(self@) && old(buffer).pos + wire_record(self@).len()
                <= WRITE_LIMIT),
            r is Ok ==> (final(buffer).buf@, final(buffer).pos as nat, true) == write_all(
                old(buffer).buf@,
                old(buffer).pos as nat,
                wire_record(self@),
            ) && r == Ok::<usize, DnsError>(wire_record(self@).len() as usize),
            r is Err ==> (r == Err::<usize, DnsError>(DnsError::LabelTooLong) || r == Err::<
                usize,
                DnsError,
            >(DnsError::OutOfBounds)),
            record_labels_ok(self@) ==> (r is Err ==> r == Err::<usize, DnsError>(
                DnsError::OutOfBounds,
            )),
    {
        let start_pos = buffer.pos();
        let ghost o = old(buffer).buf@;
        let ghost po = old(buffer).pos as nat;
        let ghost w = wire_record(self@);
        let ghost pre = rr_prelude(domain@, 15, ttl);
        let ghost pay = rr_payload(self@);
        let ghost w0 = pre + be16(0) + pay;
        proof {
            assert(w =~= pre + be16(pay.len() as u16) + pay);
            assert(w0 =~= pre + (be16(0) + pay));
            lemma_write_all_split(o, po, pre, be16(0) + pay);
            let (s1, p1, ok1) = write_all(o, po, pre);
            lemma_write_all_split(s1, p1, be16(0), pay);
            let (s2, p2, ok2) = write_all(s1, p1, be16(0));
            let qh = qname_wire(name_bytes(host@));
            assert(pay =~= be16(priority) + qh);
            lemma_write_all_split(s2, p2, be16(priority), qh);
            lemma_write_all_fail(o, po, w0);
            lemma_qname_wire_nonempty(name_bytes(domain@), 0);
            lemma_qname_wire_nonempty(name_bytes(host@), 0);
        }
        write_rr_prelude(buffer, domain.as_str(), 15, ttl)?;
        let pos = buffer.pos();
        buffer.write_u16(0)?;
        buffer.write_u16(priority)?;
        buffer.write_qname(host.as_str())?;
        proof {
            lemma_write_all_ok(o, po, w0);
            lemma_write_all_ok(o, po, pre);
        }
        let size = buffer.pos() - (pos + 2);
        proof {
            lemma_backpatch(o, po, pre, pay, size as u16);
        }
        buffer.set_u16(pos, size as u16)?;
        Ok(buffer.pos() - start_pos)
    }

    /// Encode an IPv6 address record: fixed 16-byte payload.
    #[verifier::rlimit(100)]
    fn write_aaaa(&self, buffer: &mut BytePacketBuffer, domain: &String, addr: &Ipv6Address,
        ttl: u32) -> (r: Result<usize, DnsError>)
        requires
            old(buffer).wf(),
            self@ == (RecordModel::AAAA { domain: domain@, addr: *addr, ttl }),
        ensures
            final(buffer).wf(),
            (r is Ok) <==> (record_labels_ok(self@) && old(buffer).pos + wire_record(self@).len()
                <= WRITE_LIMIT),
            r is Ok ==> (final(buffer).buf@, final(buffer).pos as nat, true) == write_all(
                old(buffer).buf@,
                old(buffer).pos as nat,
                wire_record(self@),
            ) && r == Ok::<usize, DnsError>(wire_record(self@).len() as usize),
            r is Err ==> (r == Err::<usize, DnsError>(DnsError::LabelTooLong) || r == Err::<
                usize,
                DnsError,
            >(DnsError::OutOfBounds)),
            record_labels_ok(self@) ==> (r is Err ==> r == Err::<usize, DnsError>(
                DnsError::OutOfBounds,
            )),
    {
        let start_pos = buffer.pos();
        let ghost o = old(buffer).buf@;
        let ghost po = old(buffer).pos as nat;
        let ghost w = wire_record(self@);
        let ghost pre = rr_prelude(domain@, 28, ttl);
        let ghost pay = rr_payload(self@);
        proof {
            assert(w =~= pre + (be16(16) + (be16(addr.g0) + (be16(addr.g1) + (be16(
                addr.g2,
            ) + (be16(addr.g3) + (be16(addr.g4) + (be16(addr.g5) + (be16(addr.g6) + be16(
                addr.g7,
            ))))))))));
            lemma_write_all_split(o, po, pre, be16(16) + (be16(addr.g0) + (be16(addr.g1)
                + (be16(addr.g2) + (be16(addr.g3) + (be16(addr.g4) + (be16(addr.g5) + (
            be16(addr.g6) + be16(addr.g7)))))))));
            let (s1, p1, ok1) = write_all(o, po, pre);
            lemma_write_all_split(s1, p1, be16(16), be16(addr.g0) + (be16(addr.g1) + (be16(
                addr.g2,
            ) + (be16(addr.g3) + (be16(addr.g4) + (be16(addr.g5) + (be16(addr.g6) + be16(
                addr.g7,
            ))))))));
            let (s2, p2, ok2) = write_all(s1, p1, be16(16));
            lemma_write_all_split(s2, p2, be16(addr.g0), be16(addr.g1) + (be16(addr.g2) + (
            be16(addr.g3) + (be16(addr.g4) + (be16(addr.g5) + (be16(addr.g6) + be16(
                addr.g7,
            )))))));
            let (s3, p3, ok3) = write_all(s2, p2, be16(addr.g0));
            lemma_write_all_split(s3, p3, be16(addr.g1), be16(addr.g2) + (be16(addr.g3) + (
            be16(addr.g4) + (be16(addr.g5) + (be16(addr.g6) + be16(addr.g7))))));
            let (s4, p4, ok4) = write_all(s3, p3, be16(addr.g1));
            lemma_write_all_split(s4, p4, be16(addr.g2), be16(addr.g3) + (be16(addr.g4) + (
            be16(addr.g5) + (be16(addr.g6) + be16(addr.g7)))));
            let (s5, p5, ok5) = write_all(s4, p4, be16(addr.g2));
            lemma_write_all_split(s5, p5, be16(addr.g3), be16(addr.g4) + (be16(addr.g5) + (
            be16(addr.g6) + be16(addr.g7))));
            let (s6, p6, ok6) = write_all(s5, p5, be16(addr.g3));
            lemma_write_all_split(s6, p6, be16(addr.g4), be16(addr.g5) + (be16(addr.g6)
                + be16(addr.g7)));
            let (s7, p7, ok7) = write_all(s6, p6, be16(addr.g4));
            lemma_write_all_split(s7, p7, be16(addr.g5), be16(addr.g6) + be16(addr.g7));
            let (s8, p8, ok8) = write_all(s7, p7, be16(addr.g5));
            lemma_write_all_split(s8, p8, be16(addr.g6), be16(addr.g7));
            lemma_write_all_fail(o, po, w);
        }
        write_rr_prelude(buffer, domain.as_str(), 28, ttl)?;
        buffer.write_u16(16)?;
        buffer.write_u16(addr.g0)?;
        buffer.write_u16(addr.g1)?;
        buffer.write_u16(addr.g2)?;
        buffer.write_u16(addr.g3)?;
        buffer.write_u16(addr.g4)?;
        buffer.write_u16(addr.g5)?;
        buffer.write_u16(addr.g6)?;
        buffer.write_u16(addr.g7)?;
        proof {
            lemma_write_all_ok(o, po, w);
        }
        Ok(buffer.pos() - start_pos)
    }

    /// Encode a record whose payload is a single domain name (name-server
    /// or canonical-name), with the length field backpatched.
    #[verifier::rlimit(100)]
    fn write_patched(&self, buffer: &mut BytePacketBuffer, domain: &String, host: &String,
        qnum: u16, ttl: u32) -> (r: Result<usize, DnsError>)
        requires
            old(buffer).wf(),
            self@ matches RecordModel::NS { .. } ==> qnum == 2 && (self@ == RecordModel::NS {
                domain: domain@,
                host: host@,
                ttl,
            }),
            self@ matches RecordModel::CNAME { .. } ==> qnum == 5 && (self@ == RecordModel::CNAME {
                domain: domain@,
                host: host@,
                ttl,
            }),
            (self@ matches RecordModel::NS { .. }) || (self@ matches RecordModel::CNAME { .. }),
        ensures
            final(buffer).wf(),
            (r is Ok) <==> (record_labels_ok(self@) && old(buffer).pos + wire_record(self@).len()
                <= WRITE_LIMIT),
            r is Ok ==> (final(buffer).buf@, final(buffer).pos as nat, true) == write_all(
                old(buffer).buf@,
                old(buffer).pos as nat,
                wire_record(self@),
            ) && r == Ok::<usize, DnsError>(wire_record(self@).len() as usize),
            r is Err ==> (r == Err::<usize, DnsError>(DnsError::LabelTooLong) || r == Err::<
                usize,
                DnsError,
            >(DnsError::OutOfBounds)),
            record_labels_ok(self@) ==> (r is Err ==> r == Err::<usize, DnsError>(
                DnsError::OutOfBounds,
            )),
    {
        let start_pos = buffer.pos();
        let ghost o = old(buffer).buf@;
        let ghost po = old(buffer).pos as nat;
        let ghost w = wire_record(self@);
        let ghost pre = rr_prelude(domain@, qnum, ttl);
        let ghost pay = rr_payload(self@);
        let ghost w0 = pre + be16(0) + pay;
        proof {
            assert(pay == qname_wire(name_bytes(host@)));
            assert(w =~= pre + be16(pay.len() as u16) + pay);
            assert(w0 =~= pre + (be16(0) + pay));
            lemma_write_all_split(o, po, pre, be16(0) + pay);
            let (s1, p1, ok1) = write_all(o, po, pre);
            lemma_write_all_split(s1, p1, be16(0), pay);
            lemma_write_all_fail(o, po, w0);
            lemma_qname_wire_nonempty(name_bytes(domain@), 0);
            lemma_qname_wire_nonempty(name_bytes(host@), 0);
        }
        write_rr_prelude(buffer, domain.as_str(), qnum, ttl)?;
        let pos = buffer.pos();
        buffer.write_u16(0)?;
        buffer.write_qname(host.as_str())?;
        proof {
            lemma_write_all_ok(o, po, w0);
            lemma_write_all_ok(o, po, pre);
        }
        let size = buffer.pos() - (pos + 2);
        proof {
            lemma_backpatch(o, po, pre, pay, size as u16);
        }
        buffer.set_u16(pos, size as u16)?;
        Ok(buffer.pos() - start_pos)
    }
}

} // verus!
