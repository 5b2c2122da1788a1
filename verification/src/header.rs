//! The fixed 12-byte DNS message header: id, two flag bytes, and the four
//! section counts.

use crate::buffer::{be16, be_at, clamped_read_pos, write_all, BytePacketBuffer, PACKET_SIZE};
use crate::rscode::{rc_num, rc_of_num, rc_wf, ResultCode};
use crate::DnsError;
use vstd::prelude::*;

verus! {

/// The decoded header fields. Counts are recomputed from the section
/// lengths immediately before a message is written; between operations
/// they are not treated as authoritative.
#[derive(Clone, Copy, Debug)]
pub struct DnsHeader {
    pub id: u16,
    pub recursion_desired: bool,
    pub truncated_message: bool,
    pub authoritative_answer: bool,
    pub opcode: u8,
    pub response: bool,
    pub rescode: ResultCode,
    pub checking_disabled: bool,
    pub authed_data: bool,
    pub z: bool,
    pub recursion_available: bool,
    pub questions: u16,
    pub answers: u16,
    pub authoritative_entries: u16,
    pub resource_entries: u16,
}

/// 1 for true, 0 for false.
pub open spec fn bit01(b: bool) -> u8 {
    if b {
        1
    } else {
        0
    }
}

/// Well-formed headers carry a 4-bit opcode and a 4-bit result code.
pub open spec fn header_wf(h: DnsHeader) -> bool {
    h.opcode < 16 && rc_wf(h.rescode)
}

/// The first flags byte: recursion-desired, truncated, authoritative,
/// opcode, response, from least to most significant.
pub open spec fn flags_low(h: DnsHeader) -> u8 {
    (bit01(h.recursion_desired) + bit01(h.truncated_message) * 2 + bit01(h.authoritative_answer)
        * 4 + h.opcode * 8 + bit01(h.response) * 128) as u8
}

/// The second flags byte: result code, checking-disabled, authed-data,
/// reserved bit, recursion-available, from least to most significant.
pub open spec fn flags_high(h: DnsHeader) -> u8 {
    (rc_num(h.rescode) + bit01(h.checking_disabled) * 16 + bit01(h.authed_data) * 32 + bit01(h.z)
        * 64 + bit01(h.recursion_available) * 128) as u8
}

/// The 12-byte wire form of a header.
pub open spec fn wire_header(h: DnsHeader) -> Seq<u8> {
    be16(h.id) + seq![flags_low(h), flags_high(h)] + be16(h.questions) + be16(h.answers) + be16(
        h.authoritative_entries,
    ) + be16(h.resource_entries)
}

/// The header decoded from the 12 bytes at `pos`.
pub open spec fn header_at(bytes: Seq<u8>, pos: int) -> DnsHeader {
    let a = bytes[pos + 2];
    let b = bytes[pos + 3];
    DnsHeader {
        id: be_at(bytes, pos, 2) as u16,
        recursion_desired: a % 2 == 1,
        truncated_message: a / 2 % 2 == 1,
        authoritative_answer: a / 4 % 2 == 1,
        opcode: (a / 8 % 16) as u8,
        response: a / 128 % 2 == 1,
        rescode: rc_of_num((b % 16) as u8),
        checking_disabled: b / 16 % 2 == 1,
        authed_data: b / 32 % 2 == 1,
        z: b / 64 % 2 == 1,
        recursion_available: b / 128 % 2 == 1,
        questions: be_at(bytes, pos + 4, 2) as u16,
        answers: be_at(bytes, pos + 6, 2) as u16,
        authoritative_entries: be_at(bytes, pos + 8, 2) as u16,
        resource_entries: be_at(bytes, pos + 10, 2) as u16,
    }
}

/// The fresh header: all fields zero or false, result code `NOERROR`.
pub open spec fn fresh_header() -> DnsHeader {
    DnsHeader {
        id: 0u16,
        recursion_desired: false,
        truncated_message: false,
        authoritative_answer: false,
        opcode: 0u8,
        response: false,
        rescode: ResultCode::NOERROR,
        checking_disabled: false,
        authed_data: false,
        z: false,
        recursion_available: false,
        questions: 0u16,
        answers: 0u16,
        authoritative_entries: 0u16,
        resource_entries: 0u16,
    }
}

impl DnsHeader {
    /// A fresh header: all fields zero or false, result code `NOERROR`.
    pub fn new() -> (r: DnsHeader)
        ensures
            r == (DnsHeader {
                id: 0u16,
                recursion_desired: false,
                truncated_message: false,
                authoritative_answer: false,
                opcode: 0u8,
                response: false,
                rescode: ResultCode::NOERROR,
                checking_disabled: false,
                authed_data: false,
                z: false,
                recursion_available: false,
                questions: 0u16,
                answers: 0u16,
                authoritative_entries: 0u16,
                resource_entries: 0u16,
            }),
            header_wf(r),
    {
        DnsHeader {
            id: 0,
            recursion_desired: false,
            truncated_message: false,
            authoritative_answer: false,
            opcode: 0,
            response: false,
            rescode: ResultCode::NOERROR,
            checking_disabled: false,
            authed_data: false,
            z: false,
            recursion_available: false,
            questions: 0,
            answers: 0,
            authoritative_entries: 0,
            resource_entries: 0,
        }
    }

    /// Decode the 12 header bytes at the buffer's cursor.
    pub fn read(&mut self, buffer: &mut BytePacketBuffer) -> (r: Result<(), DnsError>)
        requires
            old(buffer).wf(),
        ensures
            final(buffer).wf(),
            final(buffer).buf == old(buffer).buf,
            old(buffer).pos + 12 <= PACKET_SIZE ==> r == Ok::<(), DnsError>(()) && *final(self)
                == header_at(old(buffer).buf@, old(buffer).pos as int) && final(buffer).pos == old(
                buffer,
            ).pos + 12 && header_wf(*final(self)),
            old(buffer).pos + 12 > PACKET_SIZE ==> r == Err::<(), DnsError>(DnsError::OutOfBounds)
                && final(buffer).pos == clamped_read_pos(old(buffer).pos as nat),
    {
        self.id = buffer.read_u16()?;
        let flags = buffer.read_u16()?;
        let a = (flags / 256) as u8;
        let b = (flags % 256) as u8;

        self.recursion_desired = a % 2 == 1;
        self.truncated_message = a / 2 % 2 == 1;
        self.authoritative_answer = a / 4 % 2 == 1;
        self.opcode = a / 8 % 16;
        self.response = a / 128 % 2 == 1;

        self.rescode = ResultCode::from_num(b % 16);
        self.checking_disabled = b / 16 % 2 == 1;
        self.authed_data = b / 32 % 2 == 1;
        self.z = b / 64 % 2 == 1;
        self.recursion_available = b / 128 % 2 == 1;

        self.questions = buffer.read_u16()?;
        self.answers = buffer.read_u16()?;
        self.authoritative_entries = buffer.read_u16()?;
        self.resource_entries = buffer.read_u16()?;

        proof {
            let bs = old(buffer).buf@;
            let p = old(buffer).pos as int;
            assert(be_at(bs, p + 2, 0) == 0);
            assert(be_at(bs, p + 2, 1) == bs[p + 2]);
            assert(be_at(bs, p + 2, 2) == bs[p + 2] * 256 + bs[p + 3]);
            assert(bs[p + 2] < 256 && bs[p + 3] < 256);
            assert((bs[p + 2] * 256 + bs[p + 3]) / 256 == bs[p + 2]) by (nonlinear_arith)
                requires
                    0 <= bs[p + 2] < 256 && 0 <= bs[p + 3] < 256,
            ;
            assert((bs[p + 2] * 256 + bs[p + 3]) % 256 == bs[p + 3]) by (nonlinear_arith)
                requires
                    0 <= bs[p + 2] < 256 && 0 <= bs[p + 3] < 256,
            ;
        }
        Ok(())
    }

    /// Encode the 12 header bytes at the buffer's cursor.
    #[verifier::rlimit(100)]
    pub fn write(&self, buffer: &mut BytePacketBuffer) -> (r: Result<(), DnsError>)
        requires
            old(buffer).wf(),
            header_wf(*self),
        ensures
            final(buffer).wf(),
            (final(buffer).buf@, final(buffer).pos as nat, r is Ok) == write_all(
                old(buffer).buf@,
                old(buffer).pos as nat,
                wire_header(*self),
            ),
            r is Err ==> r == Err::<(), DnsError>(DnsError::OutOfBounds),
    {
        let a = (if self.recursion_desired {
            1u8
        } else {
            0u8
        }) + (if self.truncated_message {
            2u8
        } else {
            0u8
        }) + (if self.authoritative_answer {
            4u8
        } else {
            0u8
        }) + self.opcode * 8 + (if self.response {
            128u8
        } else {
            0u8
        });
        let b = self.rescode.to_num() + (if self.checking_disabled {
            16u8
        } else {
            0u8
        }) + (if self.authed_data {
            32u8
        } else {
            0u8
        }) + (if self.z {
            64u8
        } else {
            0u8
        }) + (if self.recursion_available {
            128u8
        } else {
            0u8
        });
        proof {
            let o = old(buffer).buf@;
            let po = old(buffer).pos as nat;
            let w = wire_header(*self);
            assert(a == flags_low(*self));
            assert(b == flags_high(*self));
            let c1 = be16(self.id);
            let c2: Seq<u8> = seq![flags_low(*self)];
            let c3: Seq<u8> = seq![flags_high(*self)];
            let c4 = be16(self.questions);
            let c5 = be16(self.answers);
            let c6 = be16(self.authoritative_entries);
            let c7 = be16(self.resource_entries);
            assert(w =~= c1 + (c2 + (c3 + (c4 + (c5 + (c6 + c7))))));
            crate::buffer::lemma_write_all_split(o, po, c1, c2 + (c3 + (c4 + (c5 + (c6 + c7)))));
            let (s1, p1, ok1) = write_all(o, po, c1);
            crate::buffer::lemma_write_all_split(s1, p1, c2, c3 + (c4 + (c5 + (c6 + c7))));
            let (s2, p2, ok2) = write_all(s1, p1, c2);
            crate::buffer::lemma_write_all_split(s2, p2, c3, c4 + (c5 + (c6 + c7)));
            let (s3, p3, ok3) = write_all(s2, p2, c3);
            crate::buffer::lemma_write_all_split(s3, p3, c4, c5 + (c6 + c7));
            let (s4, p4, ok4) = write_all(s3, p3, c4);
            crate::buffer::lemma_write_all_split(s4, p4, c5, c6 + c7);
            let (s5, p5, ok5) = write_all(s4, p4, c5);
            crate::buffer::lemma_write_all_split(s5, p5, c6, c7);
        }
        buffer.write_u16(self.id)?;
        buffer.write_u8(a)?;
        buffer.write_u8(b)?;
        buffer.write_u16(self.questions)?;
        buffer.write_u16(self.answers)?;
        buffer.write_u16(self.authoritative_entries)?;
        buffer.write_u16(self.resource_entries)?;
        Ok(())
    }
}

} // verus!
