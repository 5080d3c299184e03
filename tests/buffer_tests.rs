use dns_core::buffer::{BufferError, BytePacketBuffer, PacketBuffer, VectorPacketBuffer};

#[test]
fn test_qname() {
    let mut buffer = VectorPacketBuffer::new();

    let instr1 = "a.google.com".to_string();
    let instr2 = "b.google.com".to_string();

    match buffer.write_qname(&instr1) {
        Ok(_) => {}
        Err(_) => panic!(),
    }

    let crafted_data = [0x01, b'b' as u8, 0xC0, 0x02];
    for b in &crafted_data {
        match buffer.write_u8(*b) {
            Ok(_) => {}
            Err(_) => panic!(),
        }
    }

    buffer.pos = 0;

    let mut outstr1 = String::new();
    match buffer.read_qname(&mut outstr1) {
        Ok(_) => {}
        Err(_) => panic!(),
    }
    assert_eq!(instr1, outstr1);

    let mut outstr2 = String::new();
    match buffer.read_qname(&mut outstr2) {
        Ok(_) => {}
        Err(_) => panic!(),
    }
    assert_eq!(instr2, outstr2);

    assert_eq!(buffer.pos, buffer.buffer.len());
}

#[test]
fn test_write_qname() {
    let mut buffer = VectorPacketBuffer::new();

    buffer.write_qname(&"ns1.google.com".to_string()).unwrap();
    buffer.write_qname(&"ns2.google.com".to_string()).unwrap();

    println!("Buffer after writing qnames: {:?}", buffer.buffer);

    assert_eq!(22, buffer.pos());

    buffer.seek(0).unwrap();

    let mut str1 = String::new();
    buffer.read_qname(&mut str1).unwrap();
    assert_eq!("ns1.google.com", str1);

    let mut str2 = String::new();
    buffer.read_qname(&mut str2).unwrap();
    assert_eq!("ns2.google.com", str2);
}

#[test]
fn test_write_qname_no_jump() {
    let mut buffer = VectorPacketBuffer::new();
    buffer.write_qname("example.com").unwrap();

    let expected = vec![
        7, b'e', b'x', b'a', b'm', b'p', b'l', b'e',
        3, b'c', b'o', b'm',
        0,
    ];

    assert_eq!(buffer.buffer, expected);
}

#[test]
fn test_write_qname_with_jump() {
    let mut buffer = VectorPacketBuffer::new();
    buffer.write_qname("example.com").unwrap();

    let _pos_com = buffer.pos();

    buffer.write_qname("com").unwrap();

    let expected = vec![
        7, b'e', b'x', b'a', b'm', b'p', b'l', b'e',
        3, b'c', b'o', b'm',
        0,
        0xC0, 0x08,
    ];

    assert_eq!(buffer.buffer, expected);
}

#[test]
fn test_write_qname_empty() {
    let mut buffer = VectorPacketBuffer::new();
    buffer.write_qname("").unwrap();
    let expected = vec![0];
    assert_eq!(buffer.buffer, expected);
}

#[test]
fn test_write_qname_single_label() {
    let mut buffer = VectorPacketBuffer::new();
    buffer.write_qname("example").unwrap();
    let expected = vec![7, b'e', b'x', b'a', b'm', b'p', b'l', b'e', 0];
    assert_eq!(buffer.buffer, expected);
}

#[test]
fn test_write_qname_maximum_length_label() {
    let mut buffer = VectorPacketBuffer::new();
    let label = "a".repeat(63);
    buffer.write_qname(&label).unwrap();

    let mut expected = vec![63];
    expected.extend(label.as_bytes());
    expected.push(0);

    assert_eq!(buffer.buffer, expected);
}

#[test]
fn test_write_qname_invalid_characters() {
    let mut buffer = VectorPacketBuffer::new();
    let result = buffer.write_qname("invalid_label_1.com");
    assert!(result.is_err(), "Expected error for invalid characters in label");
}

#[test]
fn test_write_qname_multiple_repeated_labels_with_jump() {
    let mut buffer = VectorPacketBuffer::new();
    buffer.write_qname("example.com").unwrap();
    buffer.write_qname("com").unwrap();

    let expected = vec![
        7, b'e', b'x', b'a', b'm', b'p', b'l', b'e',
        3, b'c', b'o', b'm',
        0,
        0xC0, 0x08,
    ];

    assert_eq!(buffer.buffer, expected);
}

#[test]
fn test_read_qname_basic() {
    let mut buffer = VectorPacketBuffer {
        buffer: vec![3, b'w', b'w', b'w', 3, b'c', b'o', b'm', 0],
        pos: 0,
        label_lookup: Vec::new(),
    };
    let mut result = String::new();
    assert!(buffer.read_qname(&mut result).is_ok());
    assert_eq!(result, "www.com");
}

#[test]
fn test_read_qname_compression() {
    let mut buffer = VectorPacketBuffer {
        buffer: vec![3, b'w', b'w', b'w', 3, b'c', b'o', b'm', 0, 0xC0, 0x00],
        pos: 0,
        label_lookup: Vec::new(),
    };
    let mut result = String::new();
    assert!(buffer.read_qname(&mut result).is_ok());
    assert_eq!(result, "www.com");
}

#[test]
fn test_read_qname_empty_label() {
    let mut buffer = VectorPacketBuffer {
        buffer: vec![3, b'w', b'w', b'w', 3, b'c', b'o', b'm', 0, 0],
        pos: 0,
        label_lookup: Vec::new(),
    };
    let mut result = String::new();
    assert!(buffer.read_qname(&mut result).is_ok());
    assert_eq!(result, "www.com");
}

#[test]
fn test_read_qname_compression_jump() {
    let mut buffer = VectorPacketBuffer {
        buffer: vec![
            3, b'w', b'w', b'w', 3, b'c', b'o', b'm', 0,
            0xC0, 0x00,
            0xC0, 0x03,
        ],
        pos: 0,
        label_lookup: Vec::new(),
    };
    let mut result = String::new();
    assert!(buffer.read_qname(&mut result).is_ok());
    assert_eq!(result, "www.com");
}

#[test]
fn test_read_qname_multiple_labels() {
    let mut buffer = VectorPacketBuffer {
        buffer: vec![3, b'w', b'w', b'w', 3, b'c', b'o', b'm', 3, b'e', b'd', b'u', 0],
        pos: 0,
        label_lookup: Vec::new(),
    };
    let mut result = String::new();
    assert!(buffer.read_qname(&mut result).is_ok());
    assert_eq!(result, "www.com.edu");
}

// Names written one after another read back in order, lowercased, and
// repeated suffixes make the buffer shorter than the names written out in full.
#[test]
fn names_round_trip_in_order_with_compression() {
    let names = ["Mail.Example.COM", "www.example.com", "example.com", "a.b.example.com", ""];
    let mut buffer = VectorPacketBuffer::new();
    for n in names.iter() {
        buffer.write_qname(n).unwrap();
    }
    let naive: usize = names.iter().map(|n| if n.is_empty() { 1 } else { n.len() + 2 }).sum();
    assert!(buffer.buffer.len() < naive);
    buffer.seek(0).unwrap();
    for n in names.iter() {
        let mut out = String::new();
        buffer.read_qname(&mut out).unwrap();
        assert_eq!(out, n.to_lowercase());
    }
    assert_eq!(buffer.pos(), buffer.buffer.len());
}

#[test]
fn pointer_to_itself_is_malformed() {
    let mut buffer = VectorPacketBuffer::from_bytes(vec![0xC0, 0x00]);
    let mut out = String::new();
    assert_eq!(buffer.read_qname(&mut out), Err(BufferError::MalformedName));
}

#[test]
fn pointer_cycle_is_malformed() {
    // Two pointers pointing at each other: whichever one decoding starts at,
    // it meets the one that points forward and stops.
    let mut buffer = VectorPacketBuffer::from_bytes(vec![0xC0, 0x02, 0xC0, 0x00]);
    let mut out = String::new();
    assert_eq!(buffer.read_qname(&mut out), Err(BufferError::MalformedName));
    let mut buffer = VectorPacketBuffer::from_bytes(vec![0xC0, 0x02, 0xC0, 0x00]);
    buffer.seek(2).unwrap();
    let mut out = String::new();
    assert_eq!(buffer.read_qname(&mut out), Err(BufferError::MalformedName));
}

fn pointer_chain(depth: usize) -> Vec<u8> {
    // "x" then `depth` pointers, each to the one before it.
    let mut bytes = vec![1, b'x', 0];
    let mut target = 0usize;
    for _ in 0..depth {
        let here = bytes.len();
        bytes.push(0xC0 | ((target >> 8) as u8));
        bytes.push((target & 0xFF) as u8);
        target = here;
    }
    bytes
}

#[test]
fn pointer_chain_of_sixty_four_is_followed() {
    let bytes = pointer_chain(64);
    let start = bytes.len() - 2;
    let mut buffer = VectorPacketBuffer::from_bytes(bytes);
    buffer.seek(start).unwrap();
    let mut out = String::new();
    assert_eq!(buffer.read_qname(&mut out), Ok(()));
    assert_eq!(out, "x");
    assert_eq!(buffer.pos(), start + 2);
}

#[test]
fn pointer_chain_deeper_than_sixty_four_is_malformed() {
    let bytes = pointer_chain(65);
    let start = bytes.len() - 2;
    let mut buffer = VectorPacketBuffer::from_bytes(bytes);
    buffer.seek(start).unwrap();
    let mut out = String::new();
    assert_eq!(buffer.read_qname(&mut out), Err(BufferError::MalformedName));
}

#[test]
fn truncated_pointer_is_malformed() {
    let mut buffer = VectorPacketBuffer::from_bytes(vec![1, b'a', 0xC0]);
    let mut out = String::new();
    assert_eq!(buffer.read_qname(&mut out), Err(BufferError::MalformedName));
}

#[test]
fn label_past_the_end_is_end_of_buffer() {
    let mut buffer = VectorPacketBuffer::from_bytes(vec![5, b'a', b'b']);
    let mut out = String::new();
    assert_eq!(buffer.read_qname(&mut out), Err(BufferError::EndOfBuffer));
}

#[test]
fn label_of_sixty_four_is_invalid() {
    let mut buffer = VectorPacketBuffer::new();
    let label = "a".repeat(64);
    assert_eq!(buffer.write_qname(&label), Err(BufferError::InvalidLabel));
    assert!(buffer.buffer.is_empty());
}

#[test]
fn empty_inner_label_is_invalid() {
    let mut buffer = VectorPacketBuffer::new();
    assert_eq!(buffer.write_qname("a..com"), Err(BufferError::InvalidLabel));
}

#[test]
fn invalid_utf8_label_is_replaced() {
    let mut buffer = VectorPacketBuffer::from_bytes(vec![2, 0xFF, b'A', 0]);
    let mut out = String::new();
    buffer.read_qname(&mut out).unwrap();
    assert_eq!(out, "\u{FFFD}a");
}

#[test]
fn utf8_label_is_decoded() {
    let mut bytes = vec![4];
    bytes.extend("Éb".as_bytes());
    bytes.push(b'C');
    bytes.push(0);
    let mut buffer = VectorPacketBuffer::from_bytes(bytes);
    let mut out = String::new();
    buffer.read_qname(&mut out).unwrap();
    assert_eq!(out, "Ébc");
}

#[test]
fn byte_buffer_stops_at_512() {
    let mut buffer = BytePacketBuffer::new();
    for i in 0..512 {
        buffer.write((i % 256) as u8).unwrap();
    }
    assert_eq!(buffer.write(1), Err(BufferError::EndOfBuffer));
    assert_eq!(buffer.get(511), Ok(255));
    assert_eq!(buffer.get(512), Err(BufferError::EndOfBuffer));
    assert!(buffer.get_range(500, 12).is_ok());
    assert_eq!(buffer.get_range(500, 13), Err(BufferError::EndOfBuffer));
}

#[test]
fn byte_buffer_does_not_compress() {
    let mut buffer = BytePacketBuffer::new();
    buffer.write_qname("example.com").unwrap();
    buffer.write_qname("com").unwrap();
    assert_eq!(buffer.pos(), 13 + 5);
    assert_eq!(&buffer.buf[13..18], &[3, b'c', b'o', b'm', 0]);
}

#[test]
fn big_endian_helpers() {
    let mut buffer = VectorPacketBuffer::new();
    buffer.write_u16(0x1234).unwrap();
    buffer.write_u32(0xDEADBEEF).unwrap();
    assert_eq!(buffer.buffer, vec![0x12, 0x34, 0xDE, 0xAD, 0xBE, 0xEF]);
    buffer.set_u16(0, 0xABCD).unwrap();
    assert_eq!(buffer.set_u16(5, 1), Err(BufferError::EndOfBuffer));
    buffer.seek(0).unwrap();
    assert_eq!(buffer.read_u16(), Ok(0xABCD));
    assert_eq!(buffer.read_u32(), Ok(0xDEADBEEF));
    assert_eq!(buffer.read(), Err(BufferError::EndOfBuffer));
    assert_eq!(buffer.step(1), Err(BufferError::EndOfBuffer));
    assert_eq!(buffer.seek(7), Err(BufferError::EndOfBuffer));
}

#[test]
fn pointer_helpers() {
    let buffer = VectorPacketBuffer::from_bytes(vec![0xC1, 0x05]);
    assert!(buffer.is_compression_pointer(0xC0));
    assert!(!buffer.is_compression_pointer(0x3F));
    assert_eq!(buffer.calculate_offset(0, 0xC1), Ok(0x105));
    assert_eq!(buffer.calculate_offset(1, 0xC1), Err(BufferError::MalformedName));
}
