use dns_core::buffer::{BufferError, PacketBuffer, VectorPacketBuffer};
use dns_core::protocol::{
    format_ipv4, name_is_ancestor, DnsHeader, DnsPacket, DnsQuestion, DnsRecord, ProtocolError,
    QueryType, ResultCode, TransientTtl,
};

#[test]
fn test_packet_serialization_and_deserialization() {
    let mut packet = DnsPacket::new();
    packet.header.id = 1337;
    packet.header.response = true;

    packet.questions.push(DnsQuestion::new("google.com".to_string(), QueryType::NS));

    packet.answers.push(DnsRecord::NS {
        domain: "google.com".to_string(),
        host: "ns1.google.com".to_string(),
        ttl: TransientTtl(3600),
    });

    let mut buffer = VectorPacketBuffer::new();
    packet.write(&mut buffer, 0xFFFF).unwrap();

    buffer.seek(0).unwrap();

    let parsed_packet = DnsPacket::from_buffer(&mut buffer).unwrap();

    assert_eq!(packet.header, parsed_packet.header);
    assert_eq!(packet.questions, parsed_packet.questions);
    assert_eq!(packet.answers, parsed_packet.answers);
}

#[test]
fn test_unresolved_cnames() {
    let mut packet = DnsPacket::new();
    packet.answers.push(DnsRecord::CNAME {
        domain: "example.com".to_string(),
        host: "alias.example.com".to_string(),
        ttl: TransientTtl(3600),
    });

    let unresolved = packet.get_unresolved_cnames();
    assert_eq!(unresolved.len(), 1);
    assert_eq!(
        unresolved[0],
        DnsRecord::CNAME {
            domain: "example.com".to_string(),
            host: "alias.example.com".to_string(),
            ttl: TransientTtl(3600),
        }
    );
}

#[test]
fn test_random_a_record() {
    let mut packet = DnsPacket::new();
    packet.answers.push(DnsRecord::A {
        domain: "example.com".to_string(),
        addr: [127, 0, 0, 1],
        ttl: TransientTtl(3600),
    });

    let random_a = packet.get_random_a();
    assert_eq!(random_a, Some("127.0.0.1".to_string()));
}

#[test]
fn test_ttl_from_soa() {
    let mut packet = DnsPacket::new();
    packet.authorities.push(DnsRecord::SOA {
        domain: "example.com".to_string(),
        m_name: "ns1.example.com".to_string(),
        r_name: "admin.example.com".to_string(),
        serial: 20231201,
        refresh: 7200,
        retry: 3600,
        expire: 1209600,
        minimum: 600,
        ttl: TransientTtl(3600),
    });

    let ttl = packet.get_ttl_from_soa();
    assert_eq!(ttl, Some(600));
}

#[test]
fn test_resolved_ns() {
    let mut packet = DnsPacket::new();

    packet.authorities.push(DnsRecord::NS {
        domain: "example.com".to_string(),
        host: "ns1.example.com".to_string(),
        ttl: TransientTtl(3600),
    });

    packet.resources.push(DnsRecord::A {
        domain: "ns1.example.com".to_string(),
        addr: [192, 168, 1, 1],
        ttl: TransientTtl(3600),
    });

    let resolved_ns = packet.get_resolved_ns("example.com");
    assert_eq!(resolved_ns, Some("192.168.1.1".to_string()));
}

#[test]
fn test_unresolved_ns() {
    let mut packet = DnsPacket::new();

    packet.authorities.push(DnsRecord::NS {
        domain: "example.com".to_string(),
        host: "ns1.example.com".to_string(),
        ttl: TransientTtl(3600),
    });

    let unresolved_ns = packet.get_unresolved_ns("example.com");
    assert_eq!(unresolved_ns, Some("ns1.example.com".to_string()));
}

#[test]
fn test_empty_packet() {
    let mut packet = DnsPacket::new();
    let mut buffer = VectorPacketBuffer::new();

    let result = packet.write(&mut buffer, 0xFFFF);
    assert!(result.is_ok());

    buffer.seek(0).unwrap();
    let parsed_packet = DnsPacket::from_buffer(&mut buffer).unwrap();

    assert_eq!(packet.header, parsed_packet.header);
    assert!(parsed_packet.questions.is_empty());
    assert!(parsed_packet.answers.is_empty());
    assert!(parsed_packet.authorities.is_empty());
    assert!(parsed_packet.resources.is_empty());
}

#[test]
fn test_packet_with_invalid_buffer() {
    let mut buffer = VectorPacketBuffer::new();
    buffer.write_u8(255).unwrap();

    let result = DnsPacket::from_buffer(&mut buffer);
    assert!(result.is_err());
}

fn ten_a_records() -> DnsPacket {
    let mut packet = DnsPacket::new();
    packet.header.id = 1337;
    for i in 0..10 {
        packet.answers.push(DnsRecord::A {
            domain: format!("example{}.com", i),
            addr: [127, 0, 0, 1],
            ttl: TransientTtl(3600),
        });
    }
    packet
}

// Ten A records with 12-character names take 12 + 28 + 9 * 25 = 265 octets
// once the shared "com" suffix is compressed, so a 512-octet budget holds
// them all; a budget of 150 holds the first five.
#[test]
fn packet_truncation_at_budget() {
    let mut packet = ten_a_records();
    let mut buffer = VectorPacketBuffer::new();
    packet.write(&mut buffer, 150).unwrap();
    assert!(packet.header.truncated_message);
    assert_eq!(packet.header.answers, 5);
    assert!((packet.header.answers as usize) < 10);
    assert!(buffer.buffer.len() <= 150);

    buffer.seek(0).unwrap();
    let parsed = DnsPacket::from_buffer(&mut buffer).unwrap();
    assert!(parsed.header.truncated_message);
    assert_eq!(parsed.answers.len(), 5);
    assert_eq!(parsed.answers[..], packet.answers[..5]);
}

#[test]
fn ten_a_records_fit_in_512() {
    let mut packet = ten_a_records();
    let mut buffer = VectorPacketBuffer::new();
    packet.write(&mut buffer, 512).unwrap();
    assert!(!packet.header.truncated_message);
    assert_eq!(packet.header.answers, 10);
    assert_eq!(buffer.buffer.len(), 265);
}

#[test]
fn truncation_spans_sections() {
    let mut packet = ten_a_records();
    let moved: Vec<DnsRecord> = packet.answers.drain(3..).collect();
    packet.authorities = moved[..4].to_vec();
    packet.resources = moved[4..].to_vec();
    let mut buffer = VectorPacketBuffer::new();
    packet.write(&mut buffer, 12 + 28 + 25 * 4).unwrap();
    assert_eq!(packet.header.answers, 3);
    assert_eq!(packet.header.authoritative_entries, 2);
    assert_eq!(packet.header.resource_entries, 0);
    assert!(packet.header.truncated_message);
}

fn every_record_kind() -> Vec<DnsRecord> {
    vec![
        DnsRecord::A { domain: "example.com".to_string(), addr: [10, 0, 0, 1], ttl: TransientTtl(60) },
        DnsRecord::AAAA {
            domain: "example.com".to_string(),
            addr: [0x2001, 0xdb8, 0, 0, 0, 0, 0, 1],
            ttl: TransientTtl(60),
        },
        DnsRecord::NS { domain: "example.com".to_string(), host: "ns1.example.com".to_string(), ttl: TransientTtl(60) },
        DnsRecord::CNAME { domain: "www.example.com".to_string(), host: "example.com".to_string(), ttl: TransientTtl(60) },
        DnsRecord::MX { domain: "example.com".to_string(), priority: 10, host: "mail.example.com".to_string(), ttl: TransientTtl(60) },
        DnsRecord::SRV {
            domain: "sip.example.com".to_string(),
            priority: 1,
            weight: 2,
            port: 5060,
            host: "pbx.example.com".to_string(),
            ttl: TransientTtl(60),
        },
        DnsRecord::SOA {
            domain: "example.com".to_string(),
            m_name: "ns1.example.com".to_string(),
            r_name: "admin.example.com".to_string(),
            serial: 1,
            refresh: 2,
            retry: 3,
            expire: 4,
            minimum: 5,
            ttl: TransientTtl(60),
        },
        DnsRecord::TXT { domain: "example.com".to_string(), data: "v=spf1 -all".to_string(), ttl: TransientTtl(60) },
    ]
}

#[test]
fn every_record_kind_round_trips() {
    let mut packet = DnsPacket::new();
    packet.header.id = 7;
    packet.header.recursion_desired = true;
    packet.header.opcode = 2;
    packet.header.rescode = ResultCode::NXDOMAIN;
    packet.questions.push(DnsQuestion::new("Example.com".to_string(), QueryType::A));
    packet.answers = every_record_kind();
    packet.authorities = every_record_kind();
    packet.resources = every_record_kind();
    let mut buffer = VectorPacketBuffer::new();
    packet.write(&mut buffer, 0xFFFF).unwrap();
    buffer.seek(0).unwrap();
    let parsed = DnsPacket::from_buffer(&mut buffer).unwrap();
    assert_eq!(parsed.header, packet.header);
    assert_eq!(parsed.questions[0].name, "example.com");
    assert_eq!(parsed.answers, packet.answers);
    assert_eq!(parsed.authorities, packet.authorities);
    assert_eq!(parsed.resources, packet.resources);
    assert_eq!(parsed.answers[0].get_ttl(), 60);
    assert_eq!(buffer.pos(), buffer.buffer.len());
}

#[test]
fn record_write_reports_length() {
    let rec = DnsRecord::A { domain: "a.b".to_string(), addr: [1, 2, 3, 4], ttl: TransientTtl(5) };
    let mut buffer = VectorPacketBuffer::new();
    assert_eq!(rec.write(&mut buffer), Ok(5 + 10 + 4));
    assert_eq!(
        buffer.buffer,
        vec![1, b'a', 1, b'b', 0, 0, 1, 0, 1, 0, 0, 0, 5, 0, 4, 1, 2, 3, 4]
    );
    let opt = DnsRecord::OPT { packet_len: 4096, flags: 0, data: String::new() };
    assert_eq!(opt.write(&mut buffer), Ok(0));
    let bad = DnsRecord::NS { domain: "a".to_string(), host: "b_c".to_string(), ttl: TransientTtl(1) };
    assert_eq!(bad.write(&mut buffer), Err(ProtocolError::Buffer(BufferError::InvalidLabel)));
}

#[test]
fn unknown_type_is_skipped_and_kept() {
    // owner "a", type 99, class 1, ttl 7, rdlength 3, three octets of data
    let bytes = vec![1, b'a', 0, 0, 99, 0, 1, 0, 0, 0, 7, 0, 3, 9, 9, 9];
    let mut buffer = VectorPacketBuffer::from_bytes(bytes);
    let rec = DnsRecord::read(&mut buffer).unwrap();
    assert_eq!(
        rec,
        DnsRecord::UNKNOWN { domain: "a".to_string(), qtype: 99, data_len: 3, ttl: TransientTtl(7) }
    );
    assert_eq!(rec.get_querytype(), QueryType::UNKNOWN(99));
    assert_eq!(buffer.pos(), 16);
}

#[test]
fn opt_record_reads_class_and_ttl() {
    let bytes = vec![0, 0, 41, 0x10, 0x00, 0, 0, 0x80, 0, 0, 2, b'h', b'i'];
    let mut buffer = VectorPacketBuffer::from_bytes(bytes);
    let rec = DnsRecord::read(&mut buffer).unwrap();
    match rec {
        DnsRecord::OPT { packet_len, flags, data } => {
            assert_eq!(packet_len, 4096);
            assert_eq!(flags, 0x8000);
            assert_eq!(data, "hi");
        }
        _ => panic!("expected an OPT record"),
    }
    assert_eq!(rec_domain_of_opt(), None);
}

fn rec_domain_of_opt() -> Option<String> {
    DnsRecord::OPT { packet_len: 1, flags: 0, data: String::new() }.get_domain()
}

#[test]
fn truncated_record_is_end_of_buffer() {
    let bytes = vec![1, b'a', 0, 0, 1, 0, 1, 0, 0, 0, 7, 0, 4, 1, 2];
    let mut buffer = VectorPacketBuffer::from_bytes(bytes);
    assert_eq!(DnsRecord::read(&mut buffer), Err(ProtocolError::Buffer(BufferError::EndOfBuffer)));
}

#[test]
fn header_bits_follow_the_wire_layout() {
    let mut header = DnsHeader::new();
    header.id = 0xBEEF;
    header.recursion_desired = true;
    header.truncated_message = true;
    header.opcode = 5;
    header.response = true;
    header.rescode = ResultCode::REFUSED;
    header.checking_disabled = true;
    header.recursion_available = true;
    header.answers = 3;
    let mut buffer = VectorPacketBuffer::new();
    header.write(&mut buffer).unwrap();
    assert_eq!(
        buffer.buffer,
        vec![0xBE, 0xEF, 0b1010_1011, 0b1001_0101, 0, 0, 0, 3, 0, 0, 0, 0]
    );
    assert_eq!(header.binary_len(), 12);
    buffer.seek(0).unwrap();
    let mut back = DnsHeader::new();
    back.read(&mut buffer).unwrap();
    assert_eq!(back, header);
}

#[test]
fn short_header_is_end_of_buffer() {
    let mut buffer = VectorPacketBuffer::from_bytes(vec![0; 11]);
    let mut header = DnsHeader::new();
    assert_eq!(header.read(&mut buffer), Err(ProtocolError::Buffer(BufferError::EndOfBuffer)));
}

#[test]
fn query_type_codes() {
    assert_eq!(QueryType::A.to_num(), 1);
    assert_eq!(QueryType::from_num(15), QueryType::MX);
    assert_eq!(QueryType::from_num(28), QueryType::AAAA);
    assert_eq!(QueryType::from_num(41), QueryType::OPT);
    assert_eq!(QueryType::from_num(999), QueryType::UNKNOWN(999));
    for n in [0u16, 1, 2, 5, 6, 15, 16, 28, 33, 41, 255, 65535] {
        assert_eq!(QueryType::from_num(n).to_num(), n);
    }
}

#[test]
fn result_codes() {
    assert_eq!(ResultCode::from_num(0), ResultCode::NOERROR);
    assert_eq!(ResultCode::from_num(3), ResultCode::NXDOMAIN);
    assert_eq!(ResultCode::from_num(5), ResultCode::REFUSED);
    assert_eq!(ResultCode::from_num(9), ResultCode::UNKNOWN(9));
    assert_eq!(ResultCode::UNKNOWN(9).to_num(), 9);
    assert_eq!(ResultCode::SERVFAIL.to_num(), 2);
    assert_eq!(ResultCode::default(), ResultCode::NOERROR);
}

#[test]
fn ttl_takes_no_part_in_equality() {
    assert_eq!(TransientTtl::new(5), TransientTtl(600));
    assert_eq!(TransientTtl::new(5).value(), 5);
    let a = DnsRecord::A { domain: "x".to_string(), addr: [1, 1, 1, 1], ttl: TransientTtl(1) };
    let b = DnsRecord::A { domain: "x".to_string(), addr: [1, 1, 1, 1], ttl: TransientTtl(2) };
    assert_eq!(a, b);
    assert_eq!(a.duplicate(), a);
}

#[test]
fn question_length_and_codec() {
    let q = DnsQuestion::new("example.com".to_string(), QueryType::MX);
    assert_eq!(q.binary_len(), 13);
    let mut buffer = VectorPacketBuffer::new();
    q.write(&mut buffer).unwrap();
    assert_eq!(buffer.buffer.len(), 13 + 4);
    buffer.seek(0).unwrap();
    let mut back = DnsQuestion::new(String::new(), QueryType::UNKNOWN(0));
    back.read(&mut buffer).unwrap();
    assert_eq!(back, q);
}

#[test]
fn dotted_quads() {
    assert_eq!(format_ipv4(&[0, 0, 0, 0]), "0.0.0.0");
    assert_eq!(format_ipv4(&[255, 10, 9, 100]), "255.10.9.100");
}

#[test]
fn ancestors() {
    assert!(name_is_ancestor("", "example.com"));
    assert!(name_is_ancestor("com", "example.com"));
    assert!(name_is_ancestor("example.com", "example.com"));
    assert!(!name_is_ancestor("ample.com", "example.com"));
    assert!(!name_is_ancestor("www.example.com", "example.com"));
}

#[test]
fn resolved_ns_needs_ancestor_and_glue() {
    let mut packet = DnsPacket::new();
    packet.authorities.push(DnsRecord::NS {
        domain: "other.org".to_string(),
        host: "ns.other.org".to_string(),
        ttl: TransientTtl(1),
    });
    packet.authorities.push(DnsRecord::NS {
        domain: "com".to_string(),
        host: "a.gtld.net".to_string(),
        ttl: TransientTtl(1),
    });
    packet.authorities.push(DnsRecord::NS {
        domain: "com".to_string(),
        host: "b.gtld.net".to_string(),
        ttl: TransientTtl(1),
    });
    packet.resources.push(DnsRecord::A {
        domain: "b.gtld.net".to_string(),
        addr: [192, 0, 2, 2],
        ttl: TransientTtl(1),
    });
    assert_eq!(packet.get_resolved_ns("www.example.com"), Some("192.0.2.2".to_string()));
    assert_eq!(packet.get_unresolved_ns("www.example.com"), Some("a.gtld.net".to_string()));
    assert_eq!(packet.get_resolved_ns("example.net"), None);
}

#[test]
fn resolved_cname_is_not_reported() {
    let mut packet = DnsPacket::new();
    packet.answers.push(DnsRecord::CNAME {
        domain: "www.example.com".to_string(),
        host: "example.com".to_string(),
        ttl: TransientTtl(1),
    });
    packet.answers.push(DnsRecord::A { domain: "example.com".to_string(), addr: [1, 2, 3, 4], ttl: TransientTtl(1) });
    assert!(packet.get_unresolved_cnames().is_empty());
    assert_eq!(packet.get_random_a(), Some("1.2.3.4".to_string()));
    assert_eq!(packet.get_ttl_from_soa(), None);
}

#[test]
fn skipped_records_are_not_counted() {
    let mut packet = DnsPacket::new();
    packet.answers.push(DnsRecord::A { domain: "o.example".to_string(), addr: [1, 2, 3, 4], ttl: TransientTtl(9) });
    packet.resources.push(DnsRecord::OPT { packet_len: 4096, flags: 0, data: String::new() });
    packet.resources.push(DnsRecord::UNKNOWN { domain: "o.example".to_string(), qtype: 99, data_len: 0, ttl: TransientTtl(9) });
    let mut buffer = VectorPacketBuffer::new();
    packet.write(&mut buffer, 512).unwrap();
    assert_eq!(packet.header.answers, 1);
    assert_eq!(packet.header.resource_entries, 0);
    assert!(!packet.header.truncated_message);
    buffer.seek(0).unwrap();
    let parsed = DnsPacket::from_buffer(&mut buffer).unwrap();
    assert_eq!(parsed.answers, packet.answers);
    assert!(parsed.resources.is_empty());
}
