use dns_codec::buffer::PacketBuffer;
use dns_codec::dns::header::DnsHeader;
use dns_codec::dns::question::DnsQuestion;
use dns_codec::dns::record::DnsRecord;
use dns_codec::dns::{DnsPacket, QueryType, ResCode};
use dns_codec::error::DnsError;

fn buffer_with(bytes: &[(usize, u8)]) -> PacketBuffer {
    let mut raw = [0u8; 512];
    for &(i, b) in bytes {
        raw[i] = b;
    }
    PacketBuffer::from_bytes(raw)
}

fn put(raw: &mut [u8; 512], at: usize, bytes: &[u8]) {
    raw[at..at + bytes.len()].copy_from_slice(bytes);
}

#[test]
fn get_range_boundary() {
    let mut buf = PacketBuffer::default();
    assert_eq!(buf.get_range(500, 20), Err(DnsError::OutOfBounds));
    assert_eq!(buf.get_range(500, 12), Err(DnsError::OutOfBounds));
    assert_eq!(buf.get_range(500, 11).map(|s| s.len()), Ok(11));
}

#[test]
fn read_at_end_fails() {
    let mut buf = PacketBuffer::default();
    buf.seek(512).unwrap();
    assert_eq!(buf.read(), Err(DnsError::OutOfBounds));
    buf.seek(511).unwrap();
    assert_eq!(buf.read(), Ok(0));
    assert_eq!(buf.pos(), 512);
}

#[test]
fn get_and_set_bounds() {
    let mut buf = PacketBuffer::default();
    assert_eq!(buf.set(511, 7), Ok(()));
    assert_eq!(buf.get(511), Ok(7));
    assert_eq!(buf.get(512), Err(DnsError::OutOfBounds));
    assert_eq!(buf.set(512, 7), Err(DnsError::OutOfBounds));
    assert_eq!(buf.set_u16(511, 1), Err(DnsError::OutOfBounds));
    assert_eq!(buf.set_u16(510, 0xabcd), Ok(()));
    assert_eq!(buf.get(510), Ok(0xab));
    assert_eq!(buf.get(511), Ok(0xcd));
    assert_eq!(buf.pos(), 0);
}

#[test]
fn big_endian_reads_and_writes() {
    let mut buf = PacketBuffer::default();
    buf.write_u16(0x1234).unwrap();
    buf.write_u32(0xdeadbeef).unwrap();
    buf.write(0x7f).unwrap();
    assert_eq!(buf.pos(), 7);
    assert_eq!(buf.buf[0..7], [0x12, 0x34, 0xde, 0xad, 0xbe, 0xef, 0x7f]);
    buf.seek(0).unwrap();
    assert_eq!(buf.read_u16(), Ok(0x1234));
    assert_eq!(buf.read_u32(), Ok(0xdeadbeef));
    assert_eq!(buf.read(), Ok(0x7f));
    buf.step(3).unwrap();
    assert_eq!(buf.pos(), 10);
}

#[test]
fn multi_byte_access_past_end() {
    let mut buf = PacketBuffer::default();
    buf.seek(511).unwrap();
    assert_eq!(buf.read_u16(), Err(DnsError::OutOfBounds));
    buf.seek(510).unwrap();
    assert_eq!(buf.write_u32(1), Err(DnsError::OutOfBounds));
    buf.seek(508).unwrap();
    assert_eq!(buf.write_u32(1), Ok(()));
    assert_eq!(buf.pos(), 512);
    assert_eq!(buf.write(1), Err(DnsError::OutOfBounds));
}

fn pointer_chain() -> [u8; 512] {
    let mut raw = [0u8; 512];
    put(&mut raw, 0, &[1, b'a', 0]);
    put(&mut raw, 3, &[0xc0, 0]);
    put(&mut raw, 5, &[0xc0, 3]);
    put(&mut raw, 7, &[0xc0, 5]);
    put(&mut raw, 9, &[0xc0, 7]);
    put(&mut raw, 11, &[0xc0, 9]);
    put(&mut raw, 13, &[0xc0, 11]);
    raw
}

#[test]
fn five_jumps_decode() {
    let mut buf = PacketBuffer::from_bytes(pointer_chain());
    buf.seek(11).unwrap();
    let mut name = String::new();
    assert_eq!(buf.read_qname(&mut name), Ok(()));
    assert_eq!(name, "a");
    assert_eq!(buf.pos(), 13);
}

#[test]
fn six_jumps_fail() {
    let mut buf = PacketBuffer::from_bytes(pointer_chain());
    buf.seek(13).unwrap();
    let mut name = String::new();
    assert_eq!(buf.read_qname(&mut name), Err(DnsError::JumpsExceed));
}

#[test]
fn pointer_cycle_fails() {
    let mut buf = buffer_with(&[(0, 0xc0), (1, 0)]);
    let mut name = String::new();
    assert_eq!(buf.read_qname(&mut name), Err(DnsError::JumpsExceed));
}

#[test]
fn label_of_64_bytes_rejected() {
    let mut buf = PacketBuffer::default();
    let name = format!("{}.com", "a".repeat(64));
    assert_eq!(buf.write_qname(&name), Err(DnsError::LabelLengthExceed));
}

#[test]
fn label_of_63_bytes_accepted() {
    let mut buf = PacketBuffer::default();
    let name = format!("{}.com", "a".repeat(63));
    assert_eq!(buf.write_qname(&name), Ok(()));
    assert_eq!(buf.pos(), 1 + 63 + 1 + 3 + 1);
    assert_eq!(buf.buf[0], 63);
    assert_eq!(buf.buf[64], 3);
    buf.seek(0).unwrap();
    let mut back = String::new();
    buf.read_qname(&mut back).unwrap();
    assert_eq!(back, name);
}

#[test]
fn name_wire_layout() {
    let mut buf = PacketBuffer::default();
    buf.write_qname("www.example.com").unwrap();
    let expected: Vec<u8> = [&[3u8][..], b"www", &[7], b"example", &[3], b"com", &[0]].concat();
    assert_eq!(&buf.buf[0..buf.pos()], &expected[..]);
}

#[test]
fn name_does_not_fit() {
    let mut buf = PacketBuffer::default();
    buf.seek(508).unwrap();
    assert_eq!(buf.write_qname("abcd"), Err(DnsError::OutOfBounds));
}

#[test]
fn names_read_lower_cased() {
    let mut buf = PacketBuffer::default();
    buf.write_qname("WwW.ExAmple.COM").unwrap();
    buf.seek(0).unwrap();
    let mut name = String::new();
    buf.read_qname(&mut name).unwrap();
    assert_eq!(name, "www.example.com");
}

#[test]
fn invalid_utf8_label_replaced() {
    let mut buf = buffer_with(&[(0, 2), (1, b'A'), (2, 0xff), (3, 0)]);
    let mut name = String::new();
    buf.read_qname(&mut name).unwrap();
    assert_eq!(name, "a\u{fffd}");
    assert_eq!(buf.pos(), 4);
}

#[test]
fn read_qname_appends() {
    let mut buf = buffer_with(&[(0, 1), (1, b'x'), (2, 0)]);
    let mut name = String::from("pre:");
    buf.read_qname(&mut name).unwrap();
    assert_eq!(name, "pre:x");
}

#[test]
fn pointer_reads_target_labels() {
    let mut raw = [0u8; 512];
    put(&mut raw, 0, &[7]);
    put(&mut raw, 1, b"example");
    put(&mut raw, 8, &[3]);
    put(&mut raw, 9, b"com");
    put(&mut raw, 12, &[0]);
    put(&mut raw, 40, &[3]);
    put(&mut raw, 41, b"www");
    put(&mut raw, 44, &[0xc0, 0]);
    put(&mut raw, 100, &[0xc0, 0]);
    let mut buf = PacketBuffer::from_bytes(raw);
    buf.seek(40).unwrap();
    let mut a = String::new();
    buf.read_qname(&mut a).unwrap();
    assert_eq!(a, "www.example.com");
    assert_eq!(buf.pos(), 46);
    buf.seek(100).unwrap();
    let mut b = String::new();
    buf.read_qname(&mut b).unwrap();
    assert_eq!(b, "example.com");
    assert_eq!(buf.pos(), 102);
}

#[test]
fn header_flags_round_trip() {
    let mut h = DnsHeader::default();
    h.id = 0xbeef;
    h.recursion_desired = true;
    h.response = true;
    h.opcode = 0;
    h.rescode = ResCode::NXDOMAIN;
    let mut buf = PacketBuffer::default();
    h.write(&mut buf).unwrap();
    assert_eq!(buf.pos(), 12);
    assert_eq!(buf.buf[2], 0x81);
    assert_eq!(buf.buf[3], 0x03);
    buf.seek(0).unwrap();
    let mut back = DnsHeader::default();
    back.read(&mut buf).unwrap();
    assert_eq!(back.id, 0xbeef);
    assert!(back.recursion_desired);
    assert!(back.response);
    assert_eq!(back.opcode, 0);
    assert_eq!(back.rescode, ResCode::NXDOMAIN);
    assert!(!back.truncated_message);
    assert!(!back.authorative_answer);
    assert!(!back.recursion_available);
    assert!(!back.checking_disabled);
    assert!(!back.authed_data);
    assert!(!back.z);
}

#[test]
fn header_all_flags() {
    let mut buf = buffer_with(&[(2, 0xff), (3, 0xf7), (5, 2), (7, 3), (9, 4), (11, 5)]);
    let mut h = DnsHeader::default();
    h.read(&mut buf).unwrap();
    assert!(h.recursion_desired && h.truncated_message && h.authorative_answer && h.response);
    assert_eq!(h.opcode, 15);
    assert_eq!(h.rescode, ResCode::NOERROR);
    assert!(h.checking_disabled && h.authed_data && h.z && h.recursion_available);
    assert_eq!((h.questions, h.answers, h.authorative_entries, h.resource_entries), (2, 3, 4, 5));
}

#[test]
fn header_does_not_fit() {
    let mut buf = PacketBuffer::default();
    buf.seek(501).unwrap();
    let mut h = DnsHeader::default();
    assert_eq!(h.read(&mut buf), Err(DnsError::OutOfBounds));
    buf.seek(501).unwrap();
    assert_eq!(h.write(&mut buf), Err(DnsError::OutOfBounds));
}

#[test]
fn rescode_and_type_codes() {
    assert_eq!(ResCode::from(3), ResCode::NXDOMAIN);
    assert_eq!(ResCode::from(9), ResCode::NOERROR);
    assert_eq!(ResCode::REFUSED.value(), 5);
    assert_eq!(QueryType::from(15), QueryType::MX);
    assert_eq!(QueryType::from(99), QueryType::Unknown(99));
    assert_eq!(u16::from(QueryType::AAAA), 28);
    assert_eq!(u16::from(QueryType::Unknown(99)), 99);
}

#[test]
fn question_round_trip() {
    let q = DnsQuestion::new("google.com".to_string(), QueryType::AAAA);
    let mut buf = PacketBuffer::default();
    q.write(&mut buf).unwrap();
    assert_eq!(buf.pos(), 12 + 4);
    assert_eq!(buf.buf[12..16], [0, 28, 0, 1]);
    buf.seek(0).unwrap();
    let mut back = DnsQuestion::new(String::new(), QueryType::Unknown(0));
    back.read(&mut buf).unwrap();
    assert_eq!(back.name, "google.com");
    assert_eq!(back.qtype, QueryType::AAAA);
    assert_eq!(buf.pos(), 16);
}

fn a_record_bytes() -> [u8; 512] {
    let mut raw = [0u8; 512];
    put(&mut raw, 0, &[7]);
    put(&mut raw, 1, b"example");
    put(&mut raw, 8, &[3]);
    put(&mut raw, 9, b"com");
    put(&mut raw, 12, &[0]);
    put(&mut raw, 13, &[0, 1, 0, 1, 0, 0, 0x0e, 0x10, 0, 4, 93, 184, 216, 34]);
    raw
}

#[test]
fn a_record_decodes() {
    let mut buf = PacketBuffer::from_bytes(a_record_bytes());
    let rec = DnsRecord::read(&mut buf).unwrap();
    assert_eq!(
        rec,
        DnsRecord::A { domain: "example.com".to_string(), addr: 0x5db8_d822, ttl: 3600 }
    );
    assert_eq!(buf.pos(), 27);
}

#[test]
fn a_record_encodes() {
    let rec = DnsRecord::A { domain: "example.com".to_string(), addr: 0x5db8_d822, ttl: 3600 };
    let mut buf = PacketBuffer::default();
    assert_eq!(rec.write(&mut buf), Ok(27));
    assert_eq!(buf.buf[..27], a_record_bytes()[..27]);
}

#[test]
fn mx_record_round_trip() {
    let rec = DnsRecord::MX {
        domain: "example.com".to_string(),
        priority: 10,
        host: "mail.example.com".to_string(),
        ttl: 300,
    };
    let mut buf = PacketBuffer::default();
    let size = rec.write(&mut buf).unwrap();
    assert_eq!(size, 13 + 10 + 2 + 18);
    assert_eq!(buf.buf[21..25], [0, 20, 0, 10]);
    buf.seek(0).unwrap();
    let back = DnsRecord::read(&mut buf).unwrap();
    assert_eq!(back, rec);
    assert_eq!(buf.pos(), size);
}

#[test]
fn ns_cname_aaaa_round_trip() {
    let recs = vec![
        DnsRecord::NS { domain: "example.com".to_string(), host: "ns1.example.com".to_string(), ttl: 1 },
        DnsRecord::CNAME { domain: "www.example.com".to_string(), host: "example.com".to_string(), ttl: 2 },
        DnsRecord::AAAA {
            domain: "example.com".to_string(),
            addr: 0x2606_2800_0220_0001_0248_1893_25c8_1946,
            ttl: 3,
        },
    ];
    let mut buf = PacketBuffer::default();
    for r in &recs {
        r.write(&mut buf).unwrap();
    }
    let end = buf.pos();
    buf.seek(0).unwrap();
    for r in &recs {
        assert_eq!(&DnsRecord::read(&mut buf).unwrap(), r);
    }
    assert_eq!(buf.pos(), end);
}

#[test]
fn unknown_record_skips_payload() {
    let mut raw = [0u8; 512];
    put(&mut raw, 0, &[1, b'x', 0]);
    put(&mut raw, 3, &[0, 99, 0, 1, 0, 0, 0, 60, 0, 8]);
    let mut buf = PacketBuffer::from_bytes(raw);
    let rec = DnsRecord::read(&mut buf).unwrap();
    assert_eq!(rec, DnsRecord::Unknown { domain: "x".to_string(), qtype: 99, data_len: 8, ttl: 60 });
    assert_eq!(buf.pos(), 13 + 8);
}

#[test]
fn unknown_record_not_written() {
    let rec = DnsRecord::Unknown { domain: "x".to_string(), qtype: 99, data_len: 8, ttl: 60 };
    let mut buf = PacketBuffer::default();
    assert_eq!(rec.write(&mut buf), Ok(0));
    assert_eq!(buf.pos(), 0);
}

#[test]
fn packet_round_trip() {
    let mut packet = DnsPacket::default();
    packet.header.id = 6969;
    packet.header.recursion_desired = true;
    packet.header.response = true;
    packet.header.rescode = ResCode::SERVFAIL;
    packet.questions.push(DnsQuestion::new("example.com".to_string(), QueryType::A));
    packet.answers.push(DnsRecord::A { domain: "example.com".to_string(), addr: 0x0a000001, ttl: 60 });
    packet.answers.push(DnsRecord::CNAME { domain: "a.com".to_string(), host: "b.com".to_string(), ttl: 5 });
    packet.authorities.push(DnsRecord::NS { domain: "com".to_string(), host: "ns.com".to_string(), ttl: 7 });
    packet.resources.push(DnsRecord::AAAA { domain: "ns.com".to_string(), addr: 1, ttl: 8 });
    let mut buf = PacketBuffer::default();
    packet.write(&mut buf).unwrap();
    assert_eq!(packet.header.questions, 1);
    assert_eq!(packet.header.answers, 2);
    assert_eq!(packet.header.authorative_entries, 1);
    assert_eq!(packet.header.resource_entries, 1);
    let end = buf.pos();
    buf.seek(0).unwrap();
    let back = DnsPacket::from_buffer(&mut buf).unwrap();
    assert_eq!(buf.pos(), end);
    assert_eq!(back.header.id, 6969);
    assert_eq!(back.header.rescode, ResCode::SERVFAIL);
    assert!(back.header.recursion_desired && back.header.response);
    assert_eq!(back.questions.len(), 1);
    assert_eq!(back.questions[0].name, "example.com");
    assert_eq!(back.questions[0].qtype, QueryType::A);
    assert_eq!(back.answers, packet.answers);
    assert_eq!(back.authorities, packet.authorities);
    assert_eq!(back.resources, packet.resources);
}

#[test]
fn additional_records_read_back_separately() {
    let mut packet = DnsPacket::default();
    packet.authorities.push(DnsRecord::NS { domain: "com".to_string(), host: "ns.com".to_string(), ttl: 7 });
    packet.resources.push(DnsRecord::A { domain: "ns.com".to_string(), addr: 1, ttl: 9 });
    packet.resources.push(DnsRecord::A { domain: "ns2.com".to_string(), addr: 2, ttl: 9 });
    let mut buf = PacketBuffer::default();
    packet.write(&mut buf).unwrap();
    assert_eq!(packet.header.authorative_entries, 1);
    assert_eq!(packet.header.resource_entries, 2);
    buf.seek(0).unwrap();
    let back = DnsPacket::from_buffer(&mut buf).unwrap();
    assert_eq!(back.header.authorative_entries, 1);
    assert_eq!(back.header.resource_entries, 2);
    assert_eq!(back.authorities, packet.authorities);
    assert_eq!(back.resources, packet.resources);
}

#[test]
fn truncated_packet_fails() {
    let mut buf = buffer_with(&[(5, 1)]);
    buf.seek(0).unwrap();
    let mut raw = [0u8; 512];
    raw[5] = 1;
    raw[12] = 0xc0;
    raw[13] = 12;
    let mut buf2 = PacketBuffer::from_bytes(raw);
    assert!(DnsPacket::from_buffer(&mut buf).is_ok());
    assert_eq!(DnsPacket::from_buffer(&mut buf2).map(|p| p.questions.len()), Err(DnsError::JumpsExceed));
}

#[test]
fn name_error_before_pointer_keeps_cursor() {
    let mut buf = buffer_with(&[(505, 10)]);
    buf.seek(505).unwrap();
    let mut name = String::new();
    assert_eq!(buf.read_qname(&mut name), Err(DnsError::OutOfBounds));
    assert_eq!(buf.pos(), 505);
}

#[test]
fn name_error_after_pointer_moves_past_it() {
    let mut buf = buffer_with(&[(20, 0xc0), (21, 20)]);
    buf.seek(20).unwrap();
    let mut name = String::new();
    assert_eq!(buf.read_qname(&mut name), Err(DnsError::JumpsExceed));
    assert_eq!(buf.pos(), 22);
}

#[test]
fn long_label_writes_only_earlier_labels() {
    let mut buf = PacketBuffer::default();
    let name = format!("ab.{}", "a".repeat(64));
    assert_eq!(buf.write_qname(&name), Err(DnsError::LabelLengthExceed));
    assert_eq!(buf.pos(), 3);
    assert_eq!(buf.buf[0..4], [2, b'a', b'b', 0]);
}

#[test]
fn name_past_end_writes_up_to_last_byte() {
    let mut buf = PacketBuffer::default();
    buf.seek(508).unwrap();
    assert_eq!(buf.write_qname("abcd"), Err(DnsError::OutOfBounds));
    assert_eq!(buf.pos(), 512);
    assert_eq!(buf.buf[508..512], [4, b'a', b'b', b'c']);
}
