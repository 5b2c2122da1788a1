use tiny_dns::buffer::BytePacketBuffer;
use tiny_dns::header::DnsHeader;
use tiny_dns::packet::DnsPacket;
use tiny_dns::qtype::QueryType;
use tiny_dns::question::DnsQuestion;
use tiny_dns::record::{DnsRecord, Ipv6Address};
use tiny_dns::rscode::ResultCode;
use tiny_dns::DnsError;

fn ipv6(g: [u16; 8]) -> Ipv6Address {
    Ipv6Address {
        g0: g[0],
        g1: g[1],
        g2: g[2],
        g3: g[3],
        g4: g[4],
        g5: g[5],
        g6: g[6],
        g7: g[7],
    }
}

#[test]
fn read_primitives_big_endian() {
    let mut buffer = BytePacketBuffer::new();
    buffer.buf[0] = 0x12;
    buffer.buf[1] = 0x34;
    buffer.buf[2] = 0x56;
    buffer.buf[3] = 0x78;
    buffer.buf[4] = 0x9A;
    buffer.buf[5] = 0xBC;
    buffer.buf[6] = 0xDE;
    buffer.buf[7] = 0xF0;
    assert_eq!(buffer.read_u16().unwrap(), 0x1234);
    buffer.seek(0).unwrap();
    assert_eq!(buffer.read_u32().unwrap(), 0x12345678);
    buffer.seek(0).unwrap();
    assert_eq!(buffer.read_u64().unwrap(), 0x123456789ABCDEF0);
    assert_eq!(buffer.pos(), 8);
}

#[test]
fn write_primitives_big_endian() {
    let mut buffer = BytePacketBuffer::new();
    buffer.write_u16(0xABCD).unwrap();
    buffer.write_u32(0x01020304).unwrap();
    buffer.write_u8(0xFF).unwrap();
    assert_eq!(&buffer.buf[0..7], &[0xAB, 0xCD, 0x01, 0x02, 0x03, 0x04, 0xFF]);
    assert_eq!(buffer.pos(), 7);
}

#[test]
fn read_past_capacity_fails() {
    let mut buffer = BytePacketBuffer::new();
    buffer.seek(1024).unwrap();
    assert_eq!(buffer.read(), Err(DnsError::OutOfBounds));
    buffer.seek(1023).unwrap();
    assert_eq!(buffer.read_u16(), Err(DnsError::OutOfBounds));
    assert_eq!(buffer.get(1024), Err(DnsError::OutOfBounds));
    // A range ending exactly at the capacity touches only positions below
    // it and succeeds; one byte further fails.
    assert!(buffer.get_range(1020, 4).is_ok());
    assert_eq!(buffer.get_range(1021, 4), Err(DnsError::OutOfBounds));
}

#[test]
fn write_past_limit_fails() {
    let mut buffer = BytePacketBuffer::new();
    buffer.seek(512).unwrap();
    assert_eq!(buffer.write_u8(1), Err(DnsError::OutOfBounds));
    buffer.seek(511).unwrap();
    assert_eq!(buffer.write_u16(0x0102), Err(DnsError::OutOfBounds));
    buffer.seek(510).unwrap();
    assert_eq!(buffer.write_u32(1), Err(DnsError::OutOfBounds));
    // Writing past the buffer capacity fails as well.
    buffer.seek(1025).unwrap();
    assert_eq!(buffer.write_u8(1), Err(DnsError::OutOfBounds));
    assert_eq!(buffer.set_u16(511, 7), Err(DnsError::OutOfBounds));
}

#[test]
fn write_below_limit_succeeds() {
    let mut buffer = BytePacketBuffer::new();
    buffer.seek(510).unwrap();
    assert_eq!(buffer.write_u16(0x0102), Ok(()));
    assert_eq!(buffer.buf[510], 1);
    assert_eq!(buffer.buf[511], 2);
}

#[test]
fn qname_round_trips() {
    let mut buffer = BytePacketBuffer::new();
    buffer.write_qname("www.example.com.").unwrap();
    assert_eq!(
        &buffer.buf[0..17],
        &[3, b'w', b'w', b'w', 7, b'e', b'x', b'a', b'm', b'p', b'l', b'e', 3, b'c', b'o', b'm', 0]
    );
    buffer.seek(0).unwrap();
    let name = buffer.read_qname().unwrap();
    assert_eq!(name, "www.example.com.");
    assert_eq!(buffer.pos(), 17);
}

#[test]
fn qname_decodes_lowercased() {
    let mut buffer = BytePacketBuffer::new();
    buffer.write_qname("WWW.Example.COM.").unwrap();
    buffer.seek(0).unwrap();
    assert_eq!(buffer.read_qname().unwrap(), "www.example.com.");
}

#[test]
fn qname_invalid_utf8_is_replaced() {
    let mut buffer = BytePacketBuffer::new();
    buffer.buf[0] = 1;
    buffer.buf[1] = 0xFF;
    buffer.buf[2] = 0;
    let name = buffer.read_qname().unwrap();
    assert_eq!(name, "\u{FFFD}.");
}

#[test]
fn qname_label_too_long_fails() {
    let mut buffer = BytePacketBuffer::new();
    let long = "a".repeat(64);
    let name = format!("{}.com.", long);
    assert_eq!(buffer.write_qname(&name), Err(DnsError::LabelTooLong));
    // Nothing was written for the name.
    assert_eq!(buffer.pos(), 0);
    assert_eq!(buffer.buf[0], 0);
    // Sixty-three bytes are still fine.
    let ok = format!("{}.com.", "a".repeat(63));
    assert_eq!(buffer.write_qname(&ok), Ok(()));
}

#[test]
fn qname_pointer_cycle_fails() {
    let mut buffer = BytePacketBuffer::new();
    // A pointer at offset 12 that points back at offset 12.
    buffer.buf[12] = 0xC0;
    buffer.buf[13] = 12;
    buffer.seek(12).unwrap();
    assert_eq!(buffer.read_qname(), Err(DnsError::TooManyJumps));
    // The shared cursor was advanced exactly past the 2-byte pointer
    // before the failure.
    assert_eq!(buffer.pos(), 14);
}

#[test]
fn qname_compressed_alias_decodes_same() {
    let mut buffer = BytePacketBuffer::new();
    buffer.write_qname("example.com.").unwrap();
    let ptr_pos = buffer.pos();
    // A second occurrence, purely a pointer to the first.
    buffer.write_u8(0xC0).unwrap();
    buffer.write_u8(0).unwrap();
    buffer.seek(0).unwrap();
    let direct = buffer.read_qname().unwrap();
    buffer.seek(ptr_pos).unwrap();
    let via_pointer = buffer.read_qname().unwrap();
    assert_eq!(direct, "example.com.");
    assert_eq!(via_pointer, direct);
    // The shared cursor resumes right after the 2-byte pointer.
    assert_eq!(buffer.pos(), ptr_pos + 2);
}

#[test]
fn header_round_trips() {
    let mut header = DnsHeader::new();
    header.id = 0xBEEF;
    header.recursion_desired = true;
    header.authoritative_answer = true;
    header.opcode = 2;
    header.response = true;
    header.rescode = ResultCode::REFUSED;
    header.recursion_available = true;
    header.z = true;
    header.questions = 1;
    header.answers = 3;
    header.authoritative_entries = 2;
    header.resource_entries = 7;
    let mut buffer = BytePacketBuffer::new();
    header.write(&mut buffer).unwrap();
    assert_eq!(buffer.pos(), 12);
    buffer.seek(0).unwrap();
    let mut decoded = DnsHeader::new();
    decoded.read(&mut buffer).unwrap();
    assert_eq!(decoded.id, 0xBEEF);
    assert!(decoded.recursion_desired);
    assert!(decoded.authoritative_answer);
    assert!(!decoded.truncated_message);
    assert_eq!(decoded.opcode, 2);
    assert!(decoded.response);
    assert_eq!(decoded.rescode, ResultCode::REFUSED);
    assert!(decoded.recursion_available);
    assert!(decoded.z);
    assert!(!decoded.authed_data);
    assert!(!decoded.checking_disabled);
    assert_eq!(decoded.questions, 1);
    assert_eq!(decoded.answers, 3);
    assert_eq!(decoded.authoritative_entries, 2);
    assert_eq!(decoded.resource_entries, 7);
}

#[test]
fn unknown_rescode_is_distinguishable() {
    assert_eq!(ResultCode::from_num(11), ResultCode::UNRECOGNIZED(11));
    assert_eq!(ResultCode::from_num(11).to_num(), 11);
    assert_eq!(ResultCode::from_num(3), ResultCode::NXDOMAIN);
}

#[test]
fn query_type_codes() {
    assert_eq!(QueryType::A.to_num(), 1);
    assert_eq!(QueryType::NS.to_num(), 2);
    assert_eq!(QueryType::CNAME.to_num(), 5);
    assert_eq!(QueryType::SOA.to_num(), 6);
    assert_eq!(QueryType::MX.to_num(), 15);
    assert_eq!(QueryType::AAAA.to_num(), 28);
    assert_eq!(QueryType::from_num(28), QueryType::AAAA);
    assert_eq!(QueryType::from_num(99), QueryType::UNKNOWN(99));
}

#[test]
fn message_round_trips_every_record_type() {
    let mut packet = DnsPacket::new();
    packet.header.id = 0x1234;
    packet.header.recursion_desired = true;
    packet.header.response = true;
    packet.questions.push(DnsQuestion::new("example.com.".to_string(), QueryType::A));
    packet.answers.push(DnsRecord::A {
        domain: "example.com.".to_string(),
        addr: 0x5DB8D822,
        ttl: 300,
    });
    packet.answers.push(DnsRecord::AAAA {
        domain: "example.com.".to_string(),
        addr: ipv6([0x2606, 0x2800, 0x220, 0x1, 0x248, 0x1893, 0x25c8, 0x1946]),
        ttl: 300,
    });
    packet.answers.push(DnsRecord::CNAME {
        domain: "alias.example.com.".to_string(),
        host: "example.com.".to_string(),
        ttl: 60,
    });
    packet.answers.push(DnsRecord::MX {
        domain: "example.com.".to_string(),
        priority: 10,
        host: "mail.example.com.".to_string(),
        ttl: 120,
    });
    packet.authorities.push(DnsRecord::NS {
        domain: "example.com.".to_string(),
        host: "ns1.example.com.".to_string(),
        ttl: 3600,
    });
    packet.authorities.push(DnsRecord::SOA {
        domain: "example.com.".to_string(),
        ttl: 3600,
        mname: "ns1.example.com.".to_string(),
        rname: "hostmaster.example.com.".to_string(),
        serial: 2024010101,
        refresh: 7200,
        retry: 900,
        expire: 1209600,
        minimum: 86400,
    });
    packet.resources.push(DnsRecord::A {
        domain: "ns1.example.com.".to_string(),
        addr: 0xC0000201,
        ttl: 3600,
    });

    let mut buffer = BytePacketBuffer::new();
    packet.write(&mut buffer).unwrap();
    buffer.seek(0).unwrap();
    let decoded = DnsPacket::from_buffer(&mut buffer).unwrap();

    assert_eq!(decoded.header.id, 0x1234);
    assert!(decoded.header.recursion_desired);
    assert!(decoded.header.response);
    assert_eq!(decoded.header.questions, 1);
    assert_eq!(decoded.header.answers, 4);
    assert_eq!(decoded.header.authoritative_entries, 2);
    assert_eq!(decoded.header.resource_entries, 1);
    assert_eq!(decoded.questions, packet.questions);
    assert_eq!(decoded.answers, packet.answers);
    assert_eq!(decoded.authorities, packet.authorities);
    assert_eq!(decoded.resources, packet.resources);
}

#[test]
fn unknown_record_skips_exactly_data_len() {
    let mut buffer = BytePacketBuffer::new();
    // A record with an unrecognized type code 99 and 5 bytes of payload,
    // followed by an A record that must still decode correctly.
    buffer.write_qname("odd.example.com.").unwrap();
    buffer.write_u16(99).unwrap();
    buffer.write_u16(1).unwrap();
    buffer.write_u32(42).unwrap();
    buffer.write_u16(5).unwrap();
    for b in [1u8, 2, 3, 4, 5] {
        buffer.write_u8(b).unwrap();
    }
    let second = DnsRecord::A {
        domain: "next.example.com.".to_string(),
        addr: 0x01020304,
        ttl: 7,
    };
    second.write(&mut buffer).unwrap();

    buffer.seek(0).unwrap();
    let first = DnsRecord::read(&mut buffer).unwrap();
    let after_first = buffer.pos();
    assert_eq!(
        first,
        DnsRecord::UNKNOWN {
            domain: "odd.example.com.".to_string(),
            qtype: 99,
            data_len: 5,
            ttl: 42,
        }
    );
    // The prelude is 17 (name) + 10 fixed bytes; the cursor then advanced
    // by exactly the declared 5 payload bytes.
    assert_eq!(after_first, 17 + 10 + 5);
    assert_eq!(DnsRecord::read(&mut buffer).unwrap(), second);
}

#[test]
fn unknown_record_is_not_reserialized() {
    let rec = DnsRecord::UNKNOWN {
        domain: "odd.example.com.".to_string(),
        qtype: 99,
        data_len: 5,
        ttl: 42,
    };
    let mut buffer = BytePacketBuffer::new();
    assert_eq!(rec.write(&mut buffer), Ok(0));
    assert_eq!(buffer.pos(), 0);
}

#[test]
fn record_write_reports_length_and_backpatches() {
    let rec = DnsRecord::NS {
        domain: "example.com.".to_string(),
        host: "ns1.example.com.".to_string(),
        ttl: 3600,
    };
    let mut buffer = BytePacketBuffer::new();
    let written = rec.write(&mut buffer).unwrap();
    assert_eq!(written, buffer.pos());
    // The backpatched length field holds the host name's true byte count:
    // the name "example.com." takes 13 bytes, the prelude 10 more, and
    // "ns1.example.com." takes 17 bytes.
    assert_eq!(buffer.buf[13 + 8], 0);
    assert_eq!(buffer.buf[13 + 9], 17);
    buffer.seek(0).unwrap();
    assert_eq!(DnsRecord::read(&mut buffer).unwrap(), rec);
}

#[test]
fn question_class_is_read_and_discarded() {
    let mut buffer = BytePacketBuffer::new();
    let q = DnsQuestion::new("example.com.".to_string(), QueryType::MX);
    q.write(&mut buffer).unwrap();
    // Class is fixed to 1 on the wire.
    assert_eq!(buffer.buf[buffer.pos() - 2], 0);
    assert_eq!(buffer.buf[buffer.pos() - 1], 1);
    buffer.seek(0).unwrap();
    let mut decoded = DnsQuestion::new(String::new(), QueryType::UNKNOWN(0));
    decoded.read(&mut buffer).unwrap();
    assert_eq!(decoded, q);
}
