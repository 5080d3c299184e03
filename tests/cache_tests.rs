use dns_core::cache::{records_match, Cache, CacheState, DomainEntry, RecordEntry};
use dns_core::protocol::{DnsRecord, QueryType, ResultCode, TransientTtl};

fn a_record(domain: &str, addr: [u8; 4], ttl: u32) -> DnsRecord {
    DnsRecord::A { domain: domain.to_string(), addr, ttl: TransientTtl(ttl) }
}

#[test]
fn test_store_and_retrieve_multiple_records() {
    let mut cache = Cache::new();

    let records = vec![
        a_record("example.com", [192, 168, 0, 1], 300),
        a_record("example.com", [192, 168, 0, 2], 300),
    ];

    cache.store(&records);

    if let Some(packet) = cache.lookup("example.com", QueryType::A) {
        assert_eq!(2, packet.answers.len());
        assert_eq!(records[0], packet.answers[0]);
        assert_eq!(records[1], packet.answers[1]);
    } else {
        panic!("Expected multiple records for example.com");
    }
}

#[test]
fn test_case_insensitive_lookup() {
    let mut cache = Cache::new();

    let record = a_record("CaseSensitive.com", [192, 168, 0, 1], 3600);

    cache.store(&[record]);

    assert!(cache.lookup("casesensitive.com", QueryType::A).is_some());
    assert!(cache.lookup("CASESENSITIVE.COM", QueryType::A).is_some());
    assert!(cache.lookup("CaseSensitive.com", QueryType::A).is_some());
}

#[test]
fn test_ttl_expiry_positive_record() {
    let mut cache = Cache::new();
    let record = a_record("ttl-test.com", [192, 168, 0, 1], 1);
    cache.store_at(&[record], 1000);
    assert!(cache.lookup_at("ttl-test.com", QueryType::A, 1000).is_some());
    assert!(cache.lookup_at("ttl-test.com", QueryType::A, 1002).is_none());
}

#[test]
fn test_negative_ttl_expiry() {
    let mut cache = Cache::new();
    cache.store_nxdomain_at("negative-ttl.com", QueryType::A, 1, 1000);
    if let Some(packet) = cache.lookup_at("negative-ttl.com", QueryType::A, 1000) {
        assert_eq!(ResultCode::NXDOMAIN, packet.header.rescode);
    } else {
        panic!("Expected NXDOMAIN response");
    }
    assert!(cache.lookup_at("negative-ttl.com", QueryType::A, 1002).is_none());
}

#[test]
fn negative_entry_from_now() {
    let mut cache = Cache::new();
    cache.store_nxdomain("x.test", QueryType::A, 60);
    let packet = cache.lookup("x.test", QueryType::A).unwrap();
    assert_eq!(packet.header.rescode, ResultCode::NXDOMAIN);
    assert!(packet.answers.is_empty());
    assert!(cache.lookup("x.test", QueryType::AAAA).is_none());
}

#[test]
fn record_lives_exactly_its_ttl() {
    let mut cache = Cache::new();
    cache.store_at(&[a_record("t.example", [1, 2, 3, 4], 300)], 5000);
    assert!(cache.lookup_at("t.example", QueryType::A, 5299).is_some());
    assert!(cache.lookup_at("t.example", QueryType::A, 5300).is_none());
}

#[test]
fn refresh_replaces_without_duplicating() {
    let mut cache = Cache::new();
    cache.store_at(&[a_record("r.example", [1, 1, 1, 1], 10)], 0);
    cache.store_at(&[a_record("r.example", [1, 1, 1, 1], 100)], 50);
    let packet = cache.lookup_at("r.example", QueryType::A, 60).unwrap();
    assert_eq!(packet.answers.len(), 1);
    assert_eq!(packet.answers[0].get_ttl(), 100);
    cache.store_at(&[a_record("r.example", [2, 2, 2, 2], 100)], 50);
    let packet = cache.lookup_at("r.example", QueryType::A, 60).unwrap();
    assert_eq!(packet.answers.len(), 2);
}

#[test]
fn positive_answer_carries_name_servers() {
    let mut cache = Cache::new();
    cache.store_at(
        &[
            a_record("ns.example", [9, 9, 9, 9], 100),
            DnsRecord::NS { domain: "ns.example".to_string(), host: "a.ns.example".to_string(), ttl: TransientTtl(100) },
            DnsRecord::NS { domain: "ns.example".to_string(), host: "b.ns.example".to_string(), ttl: TransientTtl(5) },
        ],
        0,
    );
    let packet = cache.lookup_at("ns.example", QueryType::A, 10).unwrap();
    assert_eq!(packet.answers.len(), 1);
    assert_eq!(packet.authorities.len(), 1);
    assert_eq!(packet.header.rescode, ResultCode::NOERROR);
}

#[test]
fn positive_record_overrides_negative_entry() {
    let mut cache = Cache::new();
    cache.store_nxdomain_at("p.example", QueryType::A, 100, 0);
    cache.store_at(&[a_record("p.example", [3, 3, 3, 3], 100)], 10);
    let packet = cache.lookup_at("p.example", QueryType::A, 20).unwrap();
    assert_eq!(packet.header.rescode, ResultCode::NOERROR);
    assert_eq!(packet.answers.len(), 1);
}

#[test]
fn domain_entry_states_and_counters() {
    let mut entry = DomainEntry::new("d.example".to_string());
    assert_eq!(entry.get_cache_state(QueryType::A, 0), CacheState::NotCached);
    entry.store_record(&a_record("d.example", [4, 4, 4, 4], 10), 0);
    assert_eq!(entry.get_cache_state(QueryType::A, 5), CacheState::PositiveCache);
    assert_eq!(entry.get_cache_state(QueryType::A, 10), CacheState::NotCached);
    entry.store_nxdomain(QueryType::MX, 10, 0);
    assert_eq!(entry.get_cache_state(QueryType::MX, 9), CacheState::NegativeCache);
    assert_eq!(entry.get_cache_state(QueryType::MX, 10), CacheState::NotCached);
    assert_eq!(entry.updates, 2);
    let mut out = Vec::new();
    entry.fill_query_result(QueryType::A, &mut out, 5);
    assert_eq!(out.len(), 1);
    entry.fill_query_result(QueryType::A, &mut out, 50);
    assert_eq!(out.len(), 1);
}

#[test]
fn entry_validity() {
    let e = RecordEntry { record: a_record("v.example", [1, 1, 1, 1], 30), timestamp: 100 };
    assert!(e.is_valid(129));
    assert!(!e.is_valid(130));
}

#[test]
fn matching_ignores_ttl_only() {
    assert!(records_match(&a_record("m", [1, 2, 3, 4], 1), &a_record("m", [1, 2, 3, 4], 9)));
    assert!(!records_match(&a_record("m", [1, 2, 3, 4], 1), &a_record("m", [1, 2, 3, 5], 1)));
    assert!(!records_match(&a_record("m", [1, 2, 3, 4], 1), &a_record("n", [1, 2, 3, 4], 1)));
}
