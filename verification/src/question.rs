//! A single query entry: a domain name and a query type. The class field
//! of the wire form is fixed to Internet and otherwise ignored.

use crate::buffer::{
    be16, be_at, labels_ok, parse_name, qname_wire, write_all, BytePacketBuffer, PACKET_SIZE,
};
use crate::qtype::{qt_num, qt_of_num, QueryType};
use crate::DnsError;
use vstd::prelude::*;
use vstd::string::StringSliceAdditionalSpecFns;

verus! {

/// One question of a DNS message.
#[derive(Debug, Clone, PartialEq, Eq)]
pub struct DnsQuestion {
    pub name: String,
    pub qtype: QueryType,
}

/// The mathematical content of a question: the name's characters and the
/// query type.
pub struct QuestionModel {
    pub name: Seq<char>,
    pub qtype: QueryType,
}

impl View for DnsQuestion {
    type V = QuestionModel;

    open spec fn view(&self) -> QuestionModel {
        QuestionModel { name: self.name@, qtype: self.qtype }
    }
}

/// The question decoded from `bytes` at `pos`: its model and the position
/// after it (name, 2-byte type, 2-byte class).
pub open spec fn parse_question(bytes: Seq<u8>, pos: int) -> Result<(QuestionModel, int), DnsError> {
    match parse_name(bytes, pos, 0) {
        Err(e) => Err(e),
        Ok((name, p1)) => if p1 + 4 > PACKET_SIZE {
            Err(DnsError::OutOfBounds)
        } else {
            Ok(
                (
                    QuestionModel { name, qtype: qt_of_num(be_at(bytes, p1, 2) as u16) },
                    p1 + 4,
                ),
            )
        },
    }
}

/// The wire form of a question: the name, the type code, class 1.
pub open spec fn wire_question(q: QuestionModel) -> Seq<u8> {
    qname_wire(vstd::utf8::encode_utf8(q.name)) + be16(qt_num(q.qtype)) + be16(1)
}

impl DnsQuestion {
    /// A question for `name` with query type `qtype`.
    pub fn new(name: String, qtype: QueryType) -> (r: DnsQuestion)
        ensures
            r.name == name,
            r.qtype == qtype,
    {
        DnsQuestion { name, qtype }
    }

    /// Decode a question at the buffer's cursor into `self`.
    pub fn read(&mut self, buffer: &mut BytePacketBuffer) -> (r: Result<(), DnsError>)
        requires
            old(buffer).wf(),
        ensures
            final(buffer).wf(),
            final(buffer).buf == old(buffer).buf,
            match parse_question(old(buffer).buf@, old(buffer).pos as int) {
                Ok((q, end)) => r == Ok::<(), DnsError>(()) && final(self)@ == q && final(buffer).pos == end,
                Err(e) => r == Err::<(), DnsError>(e),
            },
    {
        self.name = buffer.read_qname()?;
        self.qtype = QueryType::from_num(buffer.read_u16()?);

        // The class field is read and discarded: this library fixes the
        // class to Internet.
        let _ = buffer.read_u16()?;

        Ok(())
    }

    /// Encode this question at the buffer's cursor.
    pub fn write(&self, buffer: &mut BytePacketBuffer) -> (r: Result<(), DnsError>)
        requires
            old(buffer).wf(),
        ensures
            final(buffer).wf(),
            !labels_ok(vstd::utf8::encode_utf8(self.name@)) ==> r == Err::<(), DnsError>(
                DnsError::LabelTooLong,
            ) && *final(buffer) == *old(buffer),
            labels_ok(vstd::utf8::encode_utf8(self.name@)) ==> (
                final(buffer).buf@,
                final(buffer).pos as nat,
                r is Ok,
            ) == write_all(old(buffer).buf@, old(buffer).pos as nat, wire_question(self@)) && (
            r is Err ==> r == Err::<(), DnsError>(DnsError::OutOfBounds)),
    {
        proof {
            let o = old(buffer).buf@;
            let po = old(buffer).pos as nat;
            let c1 = qname_wire(vstd::utf8::encode_utf8(self.name@));
            let c2 = be16(qt_num(self.qtype));
            let c3 = be16(1);
            assert(wire_question(self@) =~= c1 + (c2 + c3));
            crate::buffer::lemma_write_all_split(o, po, c1, c2 + c3);
            let (s1, p1, ok1) = write_all(o, po, c1);
            crate::buffer::lemma_write_all_split(s1, p1, c2, c3);
        }
        buffer.write_qname(self.name.as_str())?;

        let typenum = self.qtype.to_num();
        buffer.write_u16(typenum)?;
        buffer.write_u16(1)?;

        Ok(())
    }
}

} // verus!
