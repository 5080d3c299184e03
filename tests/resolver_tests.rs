use dns_core::cache::Cache;
use dns_core::client::{
    build_query, encode_packet, encode_udp_packet, packet_length_prefix, parse_packet_length,
    transaction_id,
};
use dns_core::context::{ResolveStrategy, ServerStatistics};
use dns_core::protocol::{DnsPacket, DnsRecord, QueryType, ResultCode, TransientTtl};
use dns_core::resolver::{
    answer_locally, create_error_response, find_nameserver, forward_response, RecursiveLookup,
    Step, MAX_ITERATIONS,
};

fn a_record(domain: &str, addr: [u8; 4], ttl: u32) -> DnsRecord {
    DnsRecord::A { domain: domain.to_string(), addr, ttl: TransientTtl(ttl) }
}

fn ns_record(domain: &str, host: &str) -> DnsRecord {
    DnsRecord::NS { domain: domain.to_string(), host: host.to_string(), ttl: TransientTtl(3600) }
}

#[test]
fn unknown_type_is_not_implemented() {
    let mut cache = Cache::new();
    let r = answer_locally(&mut cache, "x.example", QueryType::UNKNOWN(99), true, true, None, 0).unwrap();
    assert_eq!(r.header.rescode, ResultCode::NOTIMP);
}

#[test]
fn authority_answer_wins() {
    let mut cache = Cache::new();
    let mut auth = DnsPacket::new();
    auth.header.authoritative_answer = true;
    let r = answer_locally(&mut cache, "x.example", QueryType::A, false, false, Some(auth), 0).unwrap();
    assert!(r.header.authoritative_answer);
}

#[test]
fn recursion_refused() {
    let mut cache = Cache::new();
    let r = answer_locally(&mut cache, "x.example", QueryType::A, false, true, None, 0).unwrap();
    assert_eq!(r.header.rescode, ResultCode::REFUSED);
    let r = answer_locally(&mut cache, "x.example", QueryType::A, true, false, None, 0).unwrap();
    assert_eq!(r.header.rescode, ResultCode::REFUSED);
}

#[test]
fn cached_cname_answers_address_queries() {
    let mut cache = Cache::new();
    cache.store_at(
        &[DnsRecord::CNAME { domain: "www.example".to_string(), host: "example".to_string(), ttl: TransientTtl(60) }],
        0,
    );
    let r = answer_locally(&mut cache, "www.example", QueryType::A, true, true, None, 1).unwrap();
    assert_eq!(r.answers.len(), 1);
    assert!(answer_locally(&mut cache, "www.example", QueryType::MX, true, true, None, 1).is_none());
}

// Resolving the same name twice: the second answer comes from the cache
// and holds the same records as the first.
#[test]
fn second_resolution_repeats_the_answer() {
    let mut cache = Cache::new();
    assert!(answer_locally(&mut cache, "example.com", QueryType::A, true, true, None, 100).is_none());
    let mut upstream = DnsPacket::new();
    upstream.answers.push(a_record("example.com", [93, 184, 216, 34], 300));
    upstream.answers.push(a_record("example.com", [93, 184, 216, 35], 300));
    let first = forward_response(&mut cache, upstream, 100);
    let second = answer_locally(&mut cache, "example.com", QueryType::A, true, true, None, 101).unwrap();
    assert_eq!(first.answers, second.answers);
}

#[test]
fn seeding_scans_suffixes_to_the_root() {
    let mut cache = Cache::new();
    assert_eq!(find_nameserver(&mut cache, "www.example.com", 0), None);
    cache.store_at(&[ns_record("", "a.root-servers.net"), a_record("a.root-servers.net", [198, 41, 0, 4], 3600)], 0);
    assert_eq!(find_nameserver(&mut cache, "www.example.com", 1), Some("198.41.0.4".to_string()));
    cache.store_at(&[ns_record("com", "a.gtld-servers.net"), a_record("a.gtld-servers.net", [192, 5, 6, 30], 3600)], 0);
    assert_eq!(find_nameserver(&mut cache, "www.example.com", 1), Some("192.5.6.30".to_string()));
}

#[test]
fn iterative_resolution_follows_glue_then_answers() {
    let mut cache = Cache::new();
    let mut lookup = RecursiveLookup::new("www.example.com".to_string(), QueryType::A, "198.41.0.4".to_string());
    match lookup.first_step() {
        Step::Query(s) => assert_eq!(s, "198.41.0.4"),
        _ => panic!("expected a query"),
    }
    let mut referral = DnsPacket::new();
    referral.authorities.push(ns_record("com", "a.gtld-servers.net"));
    referral.resources.push(a_record("a.gtld-servers.net", [192, 5, 6, 30], 3600));
    match lookup.on_response(&mut cache, referral, 0) {
        Step::Query(s) => assert_eq!(s, "192.5.6.30"),
        _ => panic!("expected a query"),
    }
    let mut answer = DnsPacket::new();
    answer.answers.push(a_record("www.example.com", [93, 184, 216, 34], 300));
    match lookup.on_response(&mut cache, answer, 0) {
        Step::Done(p) => assert_eq!(p.answers.len(), 1),
        _ => panic!("expected the answer"),
    }
    assert!(cache.lookup_at("www.example.com", QueryType::A, 1).is_some());
    assert!(cache.lookup_at("a.gtld-servers.net", QueryType::A, 1).is_some());
}

#[test]
fn glueless_delegation_asks_for_the_host() {
    let mut cache = Cache::new();
    let mut lookup = RecursiveLookup::new("x.example.org".to_string(), QueryType::A, "1.1.1.1".to_string());
    let mut referral = DnsPacket::new();
    referral.authorities.push(ns_record("example.org", "ns.elsewhere.net"));
    match lookup.on_response(&mut cache, referral, 0) {
        Step::ResolveGlue(h) => assert_eq!(h, "ns.elsewhere.net"),
        _ => panic!("expected a glue lookup"),
    }
    let mut glue = DnsPacket::new();
    glue.answers.push(a_record("ns.elsewhere.net", [10, 0, 0, 53], 60));
    match lookup.on_glue(&glue) {
        Step::Query(s) => assert_eq!(s, "10.0.0.53"),
        _ => panic!("expected a query"),
    }
    let mut referral = DnsPacket::new();
    referral.authorities.push(ns_record("example.org", "ns.elsewhere.net"));
    lookup.on_response(&mut cache, referral, 0);
    match lookup.on_glue(&DnsPacket::new()) {
        Step::Done(p) => assert_eq!(p.authorities.len(), 1),
        _ => panic!("expected the delegation back"),
    }
}

#[test]
fn nxdomain_stores_soa_minimum() {
    let mut cache = Cache::new();
    let mut lookup = RecursiveLookup::new("gone.example".to_string(), QueryType::A, "1.1.1.1".to_string());
    let mut nx = DnsPacket::new();
    nx.header.rescode = ResultCode::NXDOMAIN;
    nx.authorities.push(DnsRecord::SOA {
        domain: "example".to_string(),
        m_name: "ns.example".to_string(),
        r_name: "admin.example".to_string(),
        serial: 1,
        refresh: 2,
        retry: 3,
        expire: 4,
        minimum: 30,
        ttl: TransientTtl(300),
    });
    match lookup.on_response(&mut cache, nx, 1000) {
        Step::Done(p) => assert_eq!(p.header.rescode, ResultCode::NXDOMAIN),
        _ => panic!("expected the NXDOMAIN response"),
    }
    assert_eq!(cache.lookup_at("gone.example", QueryType::A, 1029).unwrap().header.rescode, ResultCode::NXDOMAIN);
    assert!(cache.lookup_at("gone.example", QueryType::A, 1030).is_none());
}

// A referral loop ends with the last response once the iteration cap is reached.
#[test]
fn referral_loop_stops_at_the_cap() {
    let mut cache = Cache::new();
    let mut lookup = RecursiveLookup::new("loop.example".to_string(), QueryType::A, "1.1.1.1".to_string());
    let mut queries = 0;
    loop {
        let mut referral = DnsPacket::new();
        referral.authorities.push(ns_record("example", "ns.example"));
        referral.resources.push(a_record("ns.example", [1, 1, 1, 1], 60));
        match lookup.on_response(&mut cache, referral, 0) {
            Step::Query(_) => queries += 1,
            Step::Done(p) => {
                assert_eq!(p.authorities.len(), 1);
                break;
            }
            Step::ResolveGlue(_) => panic!("glue was given"),
        }
    }
    assert_eq!(queries, MAX_ITERATIONS - 1);
    assert_eq!(lookup.iterations, MAX_ITERATIONS);
}

#[test]
fn empty_response_ends_resolution() {
    let mut cache = Cache::new();
    let mut lookup = RecursiveLookup::new("e.example".to_string(), QueryType::A, "1.1.1.1".to_string());
    match lookup.on_response(&mut cache, DnsPacket::new(), 0) {
        Step::Done(p) => assert!(p.answers.is_empty()),
        _ => panic!("expected the response"),
    }
}

#[test]
fn error_response_has_only_the_code() {
    let p = create_error_response(ResultCode::SERVFAIL);
    assert_eq!(p.header.rescode, ResultCode::SERVFAIL);
    assert_eq!(p.header.id, 0);
    assert!(p.questions.is_empty() && p.answers.is_empty());
}

#[test]
fn queries_encode_for_udp_and_tcp() {
    let mut q = build_query(42, "example.com", QueryType::A, true);
    assert_eq!(q.header.id, 42);
    assert!(q.header.recursion_desired);
    let bytes = encode_packet(&mut q, 0xFFFF).unwrap();
    let udp = encode_udp_packet(&mut q, 512).unwrap();
    assert_eq!(bytes, udp);
    assert_eq!(bytes.len(), 12 + 13 + 4);
    assert_eq!(&bytes[0..4], &[0, 42, 1, 0]);
    let long = "a".repeat(60);
    let name = format!("{}.{}.{}.{}.{}.{}.{}.{}.{}", long, long, long, long, long, long, long, long, long);
    let mut big = build_query(1, &name, QueryType::A, false);
    assert!(encode_udp_packet(&mut big, 512).is_err());
    assert!(encode_packet(&mut big, 0xFFFF).is_ok());
}

#[test]
fn tcp_length_prefix() {
    assert_eq!(packet_length_prefix(0x1234), [0x12, 0x34]);
    assert_eq!(parse_packet_length([0x01, 0x02]), 258);
}

#[test]
fn transaction_ids_wrap() {
    assert_eq!(transaction_id(5), 5);
    assert_eq!(transaction_id(65536 + 7), 7);
}

#[test]
fn statistics_count() {
    let s = ServerStatistics::new();
    s.count_udp_query();
    s.count_udp_query();
    s.count_tcp_query();
    assert_eq!(s.get_udp_query_count(), 2);
    assert_eq!(s.get_tcp_query_count(), 1);
    assert_eq!(ResolveStrategy::Recursive, ResolveStrategy::Recursive);
}
