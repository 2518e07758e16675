use simpledns::dns_packet::{
    DnsPacket, DnsQuestion, DnsQueryType, DnsRecord, DnsRecordA, DnsRecordAAAA, DnsRecordDROP, DnsRecordMX, DnsRecordNS,
    DnsRecordPreamble, DnsRecordUnknown,
};
use simpledns::record_row::{format_ip, parse_ip, RecordRow};
use simpledns::simple_database::SimpleDatabase;
use simpledns::utils::get_name_from_packet;

fn preamble(domain: &str, t: DnsQueryType, ttl: u32) -> DnsRecordPreamble {
    DnsRecordPreamble::build(domain.to_string(), t, 1, ttl)
}

fn a_record(domain: &str, ttl: u32, ip: [u8; 4]) -> DnsRecord {
    DnsRecord::A(DnsRecordA::new(preamble(domain, DnsQueryType::A, ttl), ip))
}

#[test]
fn non_ascii_labels_are_lowercased() {
    let buf = vec![2u8, 0xC3, 0x89, 3, b'C', b'O', b'M', 0];
    let (name, next) = get_name_from_packet(&buf, 0, 0).unwrap();
    assert_eq!(name, "é.com");
    assert_eq!(next, buf.len());
}

#[test]
fn lookups_list_authoritative_records_first() {
    let mut db = SimpleDatabase::new();
    db.insert_cache_record(a_record("o.test", 100, [9, 9, 9, 9]), 0);
    db.insert_record(a_record("o.test", 100, [1, 1, 1, 1]));
    db.insert_record(a_record("other.test", 100, [5, 5, 5, 5]));
    db.insert_record(a_record("o.test", 100, [2, 2, 2, 2]));
    let found = db.get_records(&"o.test".to_string(), 10);
    let ips: Vec<[u8; 4]> = found
        .iter()
        .map(|r| match r {
            DnsRecord::A(a) => a.ip,
            _ => [0, 0, 0, 0],
        })
        .collect();
    assert_eq!(ips, vec![[1, 1, 1, 1], [2, 2, 2, 2], [9, 9, 9, 9]]);
}

#[test]
fn addresses_format_and_parse() {
    assert_eq!(format_ip(&[192, 168, 0, 10]), "192.168.0.10");
    assert_eq!(format_ip(&[8, 8, 8, 8]), "8.8.8.8");
    assert_eq!(parse_ip("75.75.75.75"), Some([75, 75, 75, 75]));
    assert_eq!(parse_ip("255.0.9.100"), Some([255, 0, 9, 100]));
    assert_eq!(parse_ip("256.1.1.1"), None);
    assert_eq!(parse_ip("1.2.3"), None);
    assert_eq!(parse_ip("1.2.3.4.5"), None);
    assert_eq!(parse_ip("1..3.4"), None);
    assert_eq!(parse_ip("1.2.3.4 "), None);
    assert_eq!(parse_ip("1234.1.1.1"), None);
    assert_eq!(parse_ip(""), None);
}

fn round_trip(r: DnsRecord) -> RecordRow {
    let row = r.to_row().unwrap();
    let back = row.to_record().unwrap();
    assert_eq!(format!("{:?}", back), format!("{:?}", r));
    row
}

#[test]
fn records_survive_their_rows() {
    let row = round_trip(a_record("a.test", 300, [1, 2, 3, 4]));
    assert_eq!(row.hostipbody, "1.2.3.4");
    assert_eq!(row.query_type, 1);
    assert_eq!(row.priority, 0);
    let row = round_trip(DnsRecord::MX(DnsRecordMX::new(
        preamble("m.test", DnsQueryType::MX, 60),
        10,
        "mail.m.test".to_string(),
    )));
    assert_eq!(row.hostipbody, "mail.m.test");
    assert_eq!(row.priority, 10);
    round_trip(DnsRecord::NS(DnsRecordNS::new(preamble("n.test", DnsQueryType::NS, 60), "ns1.test".to_string())));
    round_trip(DnsRecord::AAAA(DnsRecordAAAA::new(preamble("v6.test", DnsQueryType::AAAA, 60), [10, 0, 0, 1])));
    let row = round_trip(DnsRecord::DROP(DnsRecordDROP::new(preamble("ads.test", DnsQueryType::DROP, 60))));
    assert_eq!(row.hostipbody, "");
    assert_eq!(row.query_type, 666);
    round_trip(DnsRecord::Unknown(DnsRecordUnknown::new(
        preamble("t.test", DnsQueryType::Unknown(16), 60),
        b"hello".to_vec(),
    )));
}

#[test]
fn binary_data_has_no_row() {
    let r = DnsRecord::Unknown(DnsRecordUnknown::new(
        preamble("t.test", DnsQueryType::Unknown(16), 60),
        vec![0xFF, 0x00],
    ));
    assert!(r.to_row().is_none());
}

#[test]
fn row_with_a_bad_address_has_no_record() {
    let row = RecordRow {
        domain: "a.test".to_string(),
        query_type: 1,
        class: 1,
        ttl: 5,
        len: 4,
        hostipbody: "not an address".to_string(),
        priority: 0,
    };
    assert!(row.to_record().is_none());
}

#[test]
fn non_ascii_name_round_trips_lowercased() {
    let mut p = DnsPacket::new();
    p.add_question(DnsQuestion::new("Ünï.Example".to_string(), DnsQueryType::A));
    let q = DnsPacket::from_bytes(&p.to_bytes()).unwrap();
    assert_eq!(q.question_section[0].name, "ünï.example");
}
