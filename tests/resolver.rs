use simpledns::dns_packet::{
    DnsHeader, DnsPacket, DnsQueryType, DnsQuestion, DnsRecord, DnsRecordA, DnsRecordDROP,
    DnsRecordMX, DnsRecordPreamble, DnsResponseCode,
};
use simpledns::dns_resolver::{DnsResolver, ResolverStep};
use simpledns::dns_server::{frame_tcp_message, DnsTcpServer, DnsUdpServer};
use simpledns::manager_worker_pool::{
    build_missing_workers, live_workers, select_idle_worker, WorkerState,
};
use simpledns::settings::DnsSettings;
use simpledns::simple_database::{CachedDnsRecord, SimpleDatabase};
use simpledns::utils::get_u16;

fn a_record(domain: &str, ttl: u32, ip: [u8; 4]) -> DnsRecord {
    DnsRecord::A(DnsRecordA::new(
        DnsRecordPreamble::build(domain.to_string(), DnsQueryType::A, 1, ttl),
        ip,
    ))
}

fn drop_record(domain: &str) -> DnsRecord {
    DnsRecord::DROP(DnsRecordDROP::new(DnsRecordPreamble::build(
        domain.to_string(),
        DnsQueryType::DROP,
        1,
        300,
    )))
}

fn query(id: u16, name: &str, t: DnsQueryType) -> DnsPacket {
    let mut p = DnsPacket::new();
    p.header.id = id;
    p.header.recurse_desired = true;
    p.add_question(DnsQuestion::new(name.to_string(), t));
    p
}

fn ip_of(r: &DnsRecord) -> Option<[u8; 4]> {
    match r {
        DnsRecord::A(a) => Some(a.ip),
        _ => None,
    }
}

/// Runs the resolver against a store, as the daemon does, with `upstream`
/// standing for the forwarded exchange.
fn resolve(
    db: &mut SimpleDatabase,
    request: &DnsPacket,
    now: i64,
    upstream: Option<DnsPacket>,
) -> DnsPacket {
    let resolver = DnsResolver::new(42069);
    let stored = request
        .question_section
        .first()
        .map(|q| db.get_records(&q.name, now));
    match resolver.answer_question(request, stored) {
        ResolverStep::Respond(p) => p,
        ResolverStep::Forward(q) => {
            let sent = resolver.forward_query(&q);
            assert!(sent.header.recurse_desired);
            assert_eq!(sent.question_section[0].name, q.name);
            let response = resolver.complete_forward(request.header.id, &q, upstream);
            db.cache_records(&DnsResolver::records_to_cache(&response), now);
            response
        }
    }
}

#[test]
fn local_a_record_is_answered() {
    let mut db = SimpleDatabase::new();
    db.insert_record(a_record("example.com", 300, [1, 2, 3, 4]));
    let request = query(0x1234, "example.com", DnsQueryType::A);
    let response = resolve(&mut db, &request, 1000, None);
    assert_eq!(response.header.id, 0x1234);
    assert!(response.header.query_response);
    assert!(response.header.recurse_desired);
    assert!(response.header.recurse_available);
    assert_eq!(response.header.response_code, DnsResponseCode::NOERROR);
    assert_eq!(response.question_section.len(), 1);
    assert_eq!(response.answer_section.len(), 1);
    assert_eq!(response.header.answer_count, 1);
    match &response.answer_section[0] {
        DnsRecord::A(a) => {
            assert_eq!(a.ip, [1, 2, 3, 4]);
            assert_eq!(a.preamble.ttl, 300);
        }
        other => panic!("unexpected record {:?}", other),
    }
}

#[test]
fn dropped_name_is_nxdomain() {
    let mut db = SimpleDatabase::new();
    db.insert_record(drop_record("ads.example"));
    db.insert_record(a_record("ads.example", 300, [6, 6, 6, 6]));
    for t in [DnsQueryType::A, DnsQueryType::MX] {
        let request = query(7, "ads.example", t);
        let response = resolve(&mut db, &request, 1000, None);
        assert_eq!(response.header.response_code, DnsResponseCode::NXDOMAIN);
        assert!(response.answer_section.is_empty());
        assert_eq!(response.header.answer_count, 0);
        assert_eq!(response.question_section.len(), 1);
        assert_eq!(response.question_section[0].name, "ads.example");
        assert_eq!(response.question_section[0].query_type, t);
    }
}

#[test]
fn missing_name_is_forwarded_and_cached() {
    let mut db = SimpleDatabase::new();
    let request = query(0x5555, "unknown.test", DnsQueryType::A);
    let mut stub = DnsPacket::new();
    stub.header.query_response = true;
    stub.header.response_code = DnsResponseCode::NOERROR;
    stub.add_answer(a_record("unknown.test", 60, [9, 9, 9, 9]));
    let response = resolve(&mut db, &request, 1000, Some(stub));
    assert_eq!(response.header.id, 0x5555);
    assert_eq!(response.header.response_code, DnsResponseCode::NOERROR);
    assert_eq!(response.answer_section.len(), 1);
    assert_eq!(ip_of(&response.answer_section[0]), Some([9, 9, 9, 9]));
    let found = db.get_records(&"unknown.test".to_string(), 1030);
    assert_eq!(found.len(), 1);
    assert_eq!(ip_of(&found[0]), Some([9, 9, 9, 9]));
    assert_eq!(db.get_records(&"unknown.test".to_string(), 1060).len(), 1);
    assert!(db.get_records(&"unknown.test".to_string(), 1061).is_empty());
}

#[test]
fn upstream_code_is_copied() {
    let mut db = SimpleDatabase::new();
    let request = query(1, "gone.test", DnsQueryType::A);
    let mut stub = DnsPacket::new();
    stub.header.response_code = DnsResponseCode::NXDOMAIN;
    let response = resolve(&mut db, &request, 5, Some(stub));
    assert_eq!(response.header.response_code, DnsResponseCode::NXDOMAIN);
    assert_eq!(response.question_section.len(), 1);
}

#[test]
fn failed_upstream_is_servfail() {
    let mut db = SimpleDatabase::new();
    let request = query(2, "down.test", DnsQueryType::A);
    let response = resolve(&mut db, &request, 5, None);
    assert_eq!(response.header.response_code, DnsResponseCode::SERVFAIL);
    assert_eq!(response.header.id, 2);
    assert!(response.answer_section.is_empty());
}

#[test]
fn unreadable_store_is_forwarded() {
    let resolver = DnsResolver::new(1);
    let request = query(3, "x.test", DnsQueryType::A);
    match resolver.answer_question(&request, None) {
        ResolverStep::Forward(q) => assert_eq!(q.name, "x.test"),
        ResolverStep::Respond(_) => panic!("expected a forward"),
    }
}

#[test]
fn missing_question_is_formerr() {
    let mut bytes = vec![0xAB, 0xCD, 0x01, 0x00, 0, 0, 0, 0, 0, 0, 0, 0];
    bytes.truncate(12);
    let request = DnsPacket::from_bytes(&bytes).unwrap();
    let mut db = SimpleDatabase::new();
    let response = resolve(&mut db, &request, 0, None);
    assert_eq!(response.header.response_code, DnsResponseCode::FORMERR);
    assert_eq!(response.header.id, 0xABCD);
    assert!(response.question_section.is_empty());
    assert!(response.answer_section.is_empty());
    assert!(response.authority_section.is_empty());
    assert!(response.additional_section.is_empty());
    let wire = response.to_bytes();
    assert_eq!(wire.len(), 12);
    assert_eq!(wire[3] & 0x0F, 1);
}

#[test]
fn tcp_exchange_is_length_prefixed() {
    let mut db = SimpleDatabase::new();
    db.insert_record(a_record("example.com", 300, [1, 2, 3, 4]));
    let body = query(0x0101, "example.com", DnsQueryType::A).to_bytes();
    assert_eq!(body.len(), 29);
    let framed = frame_tcp_message(&body).unwrap();
    assert_eq!(&framed[..2], &[0x00, 0x1D]);
    let length = get_u16(&framed, 0).unwrap() as usize;
    let request = DnsPacket::from_bytes(&framed[2..2 + length]).unwrap();
    let response = resolve(&mut db, &request, 0, None).to_bytes();
    let reply = frame_tcp_message(&response).unwrap();
    assert_eq!(reply[0] as usize * 256 + reply[1] as usize, reply.len() - 2);
    let parsed = DnsPacket::from_bytes(&reply[2..]).unwrap();
    assert_eq!(parsed.header.id, 0x0101);
    assert_eq!(ip_of(&parsed.answer_section[0]), Some([1, 2, 3, 4]));
    assert!(frame_tcp_message(&vec![0u8; 70000]).is_none());
}

#[test]
fn inserted_record_is_found_and_replaced_by_key() {
    let mut db = SimpleDatabase::new();
    db.insert_record(a_record("a.test", 10, [1, 1, 1, 1]));
    db.insert_record(a_record("a.test", 20, [1, 1, 1, 1]));
    db.insert_record(a_record("a.test", 30, [2, 2, 2, 2]));
    db.insert_record(a_record("b.test", 30, [3, 3, 3, 3]));
    let found = db.get_records(&"a.test".to_string(), 0);
    assert_eq!(found.len(), 2);
    assert!(found.iter().any(|r| ip_of(r) == Some([2, 2, 2, 2])));
    assert!(found.iter().any(|r| match r {
        DnsRecord::A(a) => a.ip == [1, 1, 1, 1] && a.preamble.ttl == 20,
        _ => false,
    }));
    assert_eq!(db.get_all_records(0).len(), 3);
}

#[test]
fn mx_priority_is_part_of_the_key() {
    let mut db = SimpleDatabase::new();
    let mx = |p: u16| {
        DnsRecord::MX(DnsRecordMX::new(
            DnsRecordPreamble::build("m.test".to_string(), DnsQueryType::MX, 1, 5),
            p,
            "mail.m.test".to_string(),
        ))
    };
    db.insert_record(mx(10));
    db.insert_record(mx(20));
    db.insert_record(mx(10));
    assert_eq!(db.get_records(&"m.test".to_string(), 0).len(), 2);
}

#[test]
fn zero_ttl_cache_entry_is_gone_a_second_later() {
    let mut db = SimpleDatabase::new();
    db.insert_cache_record(a_record("z.test", 0, [4, 4, 4, 4]), 100);
    assert_eq!(db.get_records(&"z.test".to_string(), 100).len(), 1);
    assert!(db.get_records(&"z.test".to_string(), 101).is_empty());
    assert!(db.get_all_cached_records(101).is_empty());
}

#[test]
fn cached_listing_keeps_insertion_time() {
    let mut db = SimpleDatabase::new();
    db.insert_cache_record(a_record("c.test", 50, [5, 5, 5, 5]), 10);
    let all: Vec<CachedDnsRecord> = db.get_all_cached_records(20);
    assert_eq!(all.len(), 1);
    assert_eq!(all[0].cached_time, 10);
}

#[test]
fn upstreams_start_with_the_defaults() {
    let mut db = SimpleDatabase::new();
    assert_eq!(db.pick_upstream(0), [8, 8, 8, 8]);
    assert_eq!(db.pick_upstream(1), [75, 75, 75, 75]);
    assert_eq!(db.pick_upstream(2), [8, 8, 8, 8]);
    db.initialize();
    db.initialize();
    assert_eq!(db.pick_upstream(3), [75, 75, 75, 75]);
    let pick = db.get_random_remote_lookup_server();
    assert!(pick == [8, 8, 8, 8] || pick == [75, 75, 75, 75]);
}

#[test]
fn manager_restarts_dead_workers() {
    let states: Vec<WorkerState<()>> = vec![
        WorkerState::Busy,
        WorkerState::Dead,
        WorkerState::Idle,
        WorkerState::Finished(()),
    ];
    assert_eq!(live_workers(&states), vec![0, 2]);
    assert_eq!(build_missing_workers(4, &states), 2);
    assert_eq!(build_missing_workers(1, &states), 0);
    assert_eq!(select_idle_worker(&states), Some(2));
    let busy: Vec<WorkerState<()>> = vec![WorkerState::Busy, WorkerState::Dead];
    assert_eq!(select_idle_worker(&busy), None);
}

#[test]
fn settings_fill_in_defaults() {
    let s = DnsSettings::from_values(None, None, "db".to_string(), None, None, None);
    assert_eq!(s.listening_port, 53);
    assert_eq!(s.remote_lookup_port, 42069);
    assert_eq!(s.thread_count, 1);
    assert!(s.use_udp);
    assert!(!s.use_tcp);
    assert_eq!(s.database_file, "db");
    let t = DnsSettings::from_values(Some(5353), Some(70000), "f".to_string(), Some(4), Some(false), Some(true));
    assert_eq!(t.listening_port, 5353);
    assert_eq!(t.remote_lookup_port, 4464);
    assert_eq!(t.thread_count, 4);
    assert!(!t.use_udp);
    assert!(t.use_tcp);
    let udp = DnsUdpServer::new(t.clone());
    let tcp = DnsTcpServer::new(t);
    assert_eq!(udp.settings.listening_port, tcp.settings.listening_port);
}

#[test]
fn new_header_is_a_plain_query() {
    let h = DnsHeader::new();
    assert!(!h.query_response);
    assert_eq!(h.question_count, 0);
    assert_eq!(h.response_code, DnsResponseCode::NOERROR);
}
