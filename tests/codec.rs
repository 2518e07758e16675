use simpledns::dns_packet::{
    DnsHeader, DnsOpCode, DnsPacket, DnsQueryType, DnsQuestion, DnsRecord, DnsRecordA,
    DnsRecordDROP, DnsRecordMX, DnsRecordNS, DnsRecordPreamble, DnsRecordUnknown, DnsResponseCode,
};
use simpledns::utils::{
    domain_name_to_bytes, get_name_from_packet, get_u16, get_u32, u16_to_bytes, u32_to_bytes,
    Malformed,
};

fn a_record(domain: &str, ttl: u32, ip: [u8; 4]) -> DnsRecord {
    DnsRecord::A(DnsRecordA::new(
        DnsRecordPreamble::build(domain.to_string(), DnsQueryType::A, 1, ttl),
        ip,
    ))
}

#[test]
fn integers_are_big_endian() {
    assert_eq!(u16_to_bytes(0x1234), vec![0x12, 0x34]);
    assert_eq!(u32_to_bytes(0x0102_0304), vec![1, 2, 3, 4]);
    assert_eq!(get_u16(&[0xAB, 0xCD, 0xEF], 1), Ok(0xCDEF));
    assert_eq!(get_u32(&[0, 0, 1, 0, 0xFF], 1), Ok(0x0001_00FF));
}

#[test]
fn integers_past_the_end_are_truncated() {
    assert_eq!(get_u16(&[1], 0), Err(Malformed::Truncated));
    assert_eq!(get_u16(&[1, 2], 1), Err(Malformed::Truncated));
    assert_eq!(get_u32(&[1, 2, 3], 0), Err(Malformed::Truncated));
    assert_eq!(get_u16(&[], 0), Err(Malformed::Truncated));
}

#[test]
fn name_encoding_writes_labels() {
    let mut expected = vec![7u8];
    expected.extend_from_slice(b"example");
    expected.push(3);
    expected.extend_from_slice(b"com");
    expected.push(0);
    assert_eq!(domain_name_to_bytes("example.com"), expected);
    assert_eq!(domain_name_to_bytes(""), vec![0, 0]);
}

#[test]
fn name_round_trip_lowercases() {
    let bytes = domain_name_to_bytes("WWW.Example.COM");
    let (name, next) = get_name_from_packet(&bytes, 0, 0).unwrap();
    assert_eq!(name, "www.example.com");
    assert_eq!(next, bytes.len());
}

#[test]
fn name_pointer_is_followed_and_cursor_stays() {
    // "bar" then a pointer to "foo.com" at offset 0.
    let mut buf = domain_name_to_bytes("foo.com");
    let start = buf.len();
    buf.extend_from_slice(&[3, b'b', b'a', b'r', 0xC0, 0x00, 0xFF]);
    let (name, next) = get_name_from_packet(&buf, start, 0).unwrap();
    assert_eq!(name, "bar.foo.com");
    assert_eq!(next, start + 6);
}

#[test]
fn pointer_loop_is_malformed() {
    let mut buf = vec![0u8; 12];
    buf.extend_from_slice(&[0xC0, 12]);
    assert_eq!(get_name_from_packet(&buf, 12, 0), Err(Malformed::MalformedName));
}

#[test]
fn long_pointer_chain_is_malformed() {
    // 25 pointers, each to the next, then a plain name.
    let mut buf: Vec<u8> = Vec::new();
    for k in 0..25u8 {
        buf.extend_from_slice(&[0xC0, 2 * (k + 1)]);
    }
    buf.extend_from_slice(&[1, b'a', 0]);
    assert_eq!(get_name_from_packet(&buf, 0, 0), Err(Malformed::MalformedName));
    // A short chain is read.
    assert_eq!(get_name_from_packet(&buf, 40, 0).unwrap().0, "a");
}

#[test]
fn label_that_is_not_utf8_is_malformed() {
    let buf = vec![2u8, 0xFF, 0xFE, 0];
    assert_eq!(get_name_from_packet(&buf, 0, 0), Err(Malformed::MalformedName));
}

#[test]
fn truncated_label_is_truncated() {
    let buf = vec![5u8, b'a', b'b'];
    assert_eq!(get_name_from_packet(&buf, 0, 0), Err(Malformed::Truncated));
}

#[test]
fn header_bits_are_at_their_places() {
    let mut h = DnsHeader::with_id(0xBEEF);
    h.query_response = true;
    h.op_code = DnsOpCode::STATUS;
    h.auth_answer = true;
    h.recurse_desired = true;
    h.recurse_available = true;
    h.authed_data = true;
    h.response_code = DnsResponseCode::NXDOMAIN;
    h.question_count = 1;
    h.answer_count = 0x0203;
    h.authority_count = 4;
    h.additional_count = 5;
    let bytes = h.to_bytes();
    assert_eq!(bytes, vec![0xBE, 0xEF, 0x95, 0xA3, 0, 1, 2, 3, 0, 4, 0, 5]);
    assert_eq!(DnsHeader::from_bytes(&bytes), Ok(h));
}

#[test]
fn each_header_flag_round_trips_alone() {
    for bit in 0..8 {
        let mut h = DnsHeader::with_id(7);
        match bit {
            0 => h.query_response = true,
            1 => h.auth_answer = true,
            2 => h.truncated_message = true,
            3 => h.recurse_desired = true,
            4 => h.recurse_available = true,
            5 => h.z = true,
            6 => h.authed_data = true,
            _ => h.checking_disabled = true,
        }
        let bytes = h.to_bytes();
        assert_eq!(bytes[2].count_ones() + bytes[3].count_ones(), 1);
        assert_eq!(DnsHeader::from_bytes(&bytes), Ok(h));
    }
    let mut h = DnsHeader::with_id(7);
    h.checking_disabled = true;
    assert_eq!(h.to_bytes()[3], 0x10);
    h.checking_disabled = false;
    h.z = true;
    assert_eq!(h.to_bytes()[3], 0x40);
}

#[test]
fn header_needs_twelve_bytes() {
    assert_eq!(DnsHeader::from_bytes(&[0u8; 11]), Err(Malformed::Truncated));
}

#[test]
fn codes_decode_with_defaults() {
    assert_eq!(DnsOpCode::from_num(4), DnsOpCode::NOTIFY);
    assert_eq!(DnsOpCode::from_num(3), DnsOpCode::QUERY);
    assert_eq!(DnsResponseCode::from_num(11), DnsResponseCode::DSOTYPENI);
    assert_eq!(DnsResponseCode::from_num(12), DnsResponseCode::NOERROR);
    for t in [
        DnsQueryType::A,
        DnsQueryType::NS,
        DnsQueryType::CNAME,
        DnsQueryType::MX,
        DnsQueryType::AAAA,
        DnsQueryType::DROP,
        DnsQueryType::Unknown(99),
    ] {
        assert_eq!(DnsQueryType::from_num(t.to_num()), t);
    }
    assert_eq!(DnsQueryType::DROP.to_num(), 666);
    assert_eq!(DnsQueryType::MX.to_num(), 15);
}

#[test]
fn record_constructors_set_data_length() {
    let p = || DnsRecordPreamble::build("a.b".to_string(), DnsQueryType::NS, 1, 5);
    assert_eq!(DnsRecordNS::new(p(), "ns.example".to_string()).preamble.len, 12);
    assert_eq!(DnsRecordMX::new(p(), 10, "mx.example".to_string()).preamble.len, 14);
    assert_eq!(DnsRecordUnknown::new(p(), vec![1, 2, 3]).preamble.len, 3);
    assert_eq!(DnsRecordA::new(p(), [1, 2, 3, 4]).preamble.len, 4);
    let empty = DnsRecordPreamble::new();
    assert_eq!(empty.len, 0);
    assert_eq!(empty.query_type, DnsQueryType::Unknown(0));
}

#[test]
fn record_bytes_follow_the_preamble() {
    let r = a_record("a.b", 0x0102_0304, [9, 8, 7, 6]);
    let bytes = r.to_bytes();
    let mut expected = domain_name_to_bytes("a.b");
    expected.extend_from_slice(&[0, 1, 0, 1, 1, 2, 3, 4, 0, 4, 9, 8, 7, 6]);
    assert_eq!(bytes, expected);
    let drop = DnsRecord::DROP(DnsRecordDROP::new(DnsRecordPreamble::build(
        "a.b".to_string(),
        DnsQueryType::DROP,
        1,
        5,
    )));
    assert!(drop.to_bytes().is_empty());
}

#[test]
fn packet_round_trip_lowercases_names() {
    let mut p = DnsPacket::new();
    p.header.id = 0x4242;
    p.header.query_response = true;
    p.add_question(DnsQuestion::new("Mail.Example".to_string(), DnsQueryType::MX));
    p.add_answer(DnsRecord::MX(DnsRecordMX::new(
        DnsRecordPreamble::build("Mail.Example".to_string(), DnsQueryType::MX, 1, 60),
        10,
        "MX1.Example".to_string(),
    )));
    p.authority_section.push(DnsRecord::NS(DnsRecordNS::new(
        DnsRecordPreamble::build("example".to_string(), DnsQueryType::NS, 1, 60),
        "ns.example".to_string(),
    )));
    p.additional_section.push(DnsRecord::Unknown(DnsRecordUnknown::new(
        DnsRecordPreamble::build("x".to_string(), DnsQueryType::Unknown(16), 1, 60),
        vec![3, b'a', b'b', b'c'],
    )));
    let q = DnsPacket::from_bytes(&p.to_bytes()).unwrap();
    assert_eq!(q.header.id, 0x4242);
    assert!(q.header.query_response);
    assert_eq!(q.header.question_count, 1);
    assert_eq!(q.header.answer_count, 1);
    assert_eq!(q.header.authority_count, 1);
    assert_eq!(q.header.additional_count, 1);
    assert_eq!(q.question_section[0].name, "mail.example");
    assert_eq!(q.question_section[0].query_type, DnsQueryType::MX);
    match &q.answer_section[0] {
        DnsRecord::MX(mx) => {
            assert_eq!(mx.priority, 10);
            assert_eq!(mx.host, "mx1.example");
            assert_eq!(mx.preamble.domain, "mail.example");
            assert_eq!(mx.preamble.ttl, 60);
        }
        other => panic!("unexpected record {:?}", other),
    }
    match &q.authority_section[0] {
        DnsRecord::NS(ns) => assert_eq!(ns.host, "ns.example"),
        other => panic!("unexpected record {:?}", other),
    }
    match &q.additional_section[0] {
        DnsRecord::Unknown(u) => {
            assert_eq!(u.body, vec![3, b'a', b'b', b'c']);
            assert_eq!(u.preamble.query_type, DnsQueryType::Unknown(16));
        }
        other => panic!("unexpected record {:?}", other),
    }
}

#[test]
fn drop_records_are_not_written_nor_counted() {
    let mut p = DnsPacket::new();
    p.answer_section.push(a_record("a", 1, [1, 1, 1, 1]));
    p.answer_section.push(DnsRecord::DROP(DnsRecordDROP::new(DnsRecordPreamble::build(
        "a".to_string(),
        DnsQueryType::DROP,
        1,
        1,
    ))));
    let bytes = p.to_bytes();
    assert_eq!(get_u16(&bytes, 6), Ok(1));
    let q = DnsPacket::from_bytes(&bytes).unwrap();
    assert_eq!(q.answer_section.len(), 1);
}

#[test]
fn compressed_answer_name_reads_as_question_name() {
    let mut buf: Vec<u8> = vec![0x12, 0x34, 0x81, 0x80, 0, 1, 0, 1, 0, 0, 0, 0];
    buf.extend_from_slice(&[1, b'A', 0, 0, 1, 0, 1]);
    buf.extend_from_slice(&[0xC0, 0x0C, 0, 1, 0, 1, 0, 0, 0, 60, 0, 4, 5, 6, 7, 8]);
    assert_eq!(buf.len(), 35);
    let p = DnsPacket::from_bytes(&buf).unwrap();
    assert_eq!(p.question_section[0].name, "a");
    match &p.answer_section[0] {
        DnsRecord::A(a) => {
            assert_eq!(a.preamble.domain, "a");
            assert_eq!(a.ip, [5, 6, 7, 8]);
            assert_eq!(a.preamble.ttl, 60);
        }
        other => panic!("unexpected record {:?}", other),
    }
}

#[test]
fn drop_type_on_the_wire_is_a_protocol_error() {
    let mut buf: Vec<u8> = vec![0, 1, 0x81, 0x80, 0, 0, 0, 1, 0, 0, 0, 0];
    buf.extend_from_slice(&[1, b'a', 0, 0x02, 0x9A, 0, 1, 0, 0, 0, 1, 0, 0]);
    assert_eq!(DnsPacket::from_bytes(&buf).unwrap_err(), Malformed::ProtocolError);
}

#[test]
fn short_messages_are_truncated() {
    assert_eq!(DnsPacket::from_bytes(&[0u8; 5]).unwrap_err(), Malformed::Truncated);
    // Counts one question that is not there.
    let buf = vec![0u8, 1, 0, 0, 0, 1, 0, 0, 0, 0, 0, 0];
    assert_eq!(DnsPacket::from_bytes(&buf).unwrap_err(), Malformed::Truncated);
    // An A record cut inside its address.
    let mut buf: Vec<u8> = vec![0, 1, 0x81, 0x80, 0, 0, 0, 1, 0, 0, 0, 0];
    buf.extend_from_slice(&[1, b'a', 0, 0, 1, 0, 1, 0, 0, 0, 1, 0, 4, 1, 2]);
    assert_eq!(DnsPacket::from_bytes(&buf).unwrap_err(), Malformed::Truncated);
}

#[test]
fn question_defaults() {
    let q = DnsQuestion::new("x".to_string(), DnsQueryType::A);
    assert_eq!(q.class, 1);
    let e = DnsQuestion::empty();
    assert_eq!(e.name, "");
    assert_eq!(e.class, 0);
    assert_eq!(e.query_type, DnsQueryType::Unknown(0));
    let mut expected = domain_name_to_bytes("x");
    expected.extend_from_slice(&[0, 1, 0, 1]);
    assert_eq!(q.to_bytes(), expected);
}
