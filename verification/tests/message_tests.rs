use dns_lattice::wire::{decode_name, encode_name};
use dns_lattice::{Class, Error, Header, Message, Name, Opcode, Question, RData, Rcode, RecordType, ResourceRecord};

fn base_header() -> Header {
    Header {
        id: 0x1234,
        qr: true,
        opcode: Opcode::Query,
        authoritative: false,
        truncated: false,
        recursion_desired: true,
        recursion_available: true,
        rcode: Rcode::NoError,
    }
}

fn v6_octets(segments: [u16; 8]) -> [u8; 16] {
    let mut out = [0u8; 16];
    for (i, seg) in segments.iter().enumerate() {
        out[2 * i] = (seg >> 8) as u8;
        out[2 * i + 1] = (seg & 0xff) as u8;
    }
    out
}

fn round_trip(rdata: RData, rtype: RecordType) {
    let msg = Message {
        header: base_header(),
        questions: vec![Question {
            name: Name::from_ascii("example.com.").unwrap(),
            qtype: rtype,
            qclass: Class::In,
        }],
        answers: vec![ResourceRecord {
            name: Name::from_ascii("example.com.").unwrap(),
            rtype,
            class: Class::In,
            ttl: 300,
            rdata,
        }],
        authorities: vec![],
        additionals: vec![],
    };
    let bytes = msg.encode().unwrap();
    let decoded = Message::decode(&bytes).unwrap();
    assert_eq!(msg, decoded);
}

#[test]
fn round_trips_a_record() {
    round_trip(RData::A([93, 184, 216, 34]), RecordType::A);
}

#[test]
fn round_trips_aaaa_record() {
    round_trip(
        RData::Aaaa(v6_octets([0x2606, 0x2800, 0x220, 1, 0, 0, 0, 0x8443])),
        RecordType::Aaaa,
    );
}

#[test]
fn round_trips_cname_record() {
    round_trip(
        RData::Cname(Name::from_ascii("target.example.com.").unwrap()),
        RecordType::Cname,
    );
}

#[test]
fn round_trips_ptr_record() {
    round_trip(
        RData::Ptr(Name::from_ascii("host.example.com.").unwrap()),
        RecordType::Ptr,
    );
}

#[test]
fn round_trips_ns_record() {
    round_trip(
        RData::Ns(Name::from_ascii("ns1.example.com.").unwrap()),
        RecordType::Ns,
    );
}

#[test]
fn round_trips_txt_record() {
    round_trip(
        RData::Txt(vec![b"v=spf1 -all".to_vec(), b"second".to_vec()]),
        RecordType::Txt,
    );
}

#[test]
fn round_trips_mx_record() {
    round_trip(
        RData::Mx {
            preference: 10,
            exchange: Name::from_ascii("mail.example.com.").unwrap(),
        },
        RecordType::Mx,
    );
}

#[test]
fn round_trips_soa_record() {
    round_trip(
        RData::Soa {
            mname: Name::from_ascii("ns1.example.com.").unwrap(),
            rname: Name::from_ascii("hostmaster.example.com.").unwrap(),
            serial: 2026080200,
            refresh: 3600,
            retry: 600,
            expire: 604800,
            minimum: 300,
        },
        RecordType::Soa,
    );
}

#[test]
fn round_trips_unknown_record_type() {
    round_trip(
        RData::Unknown {
            rtype: 65280,
            data: vec![1, 2, 3, 4],
        },
        RecordType::Other(65280),
    );
}

#[test]
fn empty_sections_decode_without_error() {
    let msg = Message {
        header: base_header(),
        questions: vec![],
        answers: vec![],
        authorities: vec![],
        additionals: vec![],
    };
    let bytes = msg.encode().unwrap();
    let decoded = Message::decode(&bytes).unwrap();
    assert_eq!(msg, decoded);
}

#[test]
fn truncated_message_is_rejected() {
    let bytes = [0u8; 5];
    let err = Message::decode(&bytes).unwrap_err();
    assert_eq!(err, Error::Truncated { len: 5 });
}

#[test]
fn name_pointer_loop_is_rejected_promptly() {
    let mut bytes = vec![0u8; 12];
    bytes[5] = 1;
    bytes.push(0xC0);
    bytes.push(12);
    let err = Message::decode(&bytes).unwrap_err();
    assert_eq!(err, Error::BadNamePointer { offset: 12 });
}

#[test]
fn label_length_over_63_is_rejected_on_encode() {
    let name = Name(vec![vec![b'a'; 64]]);
    let mut buf = Vec::new();
    let err = encode_name(&name, &mut buf).unwrap_err();
    assert_eq!(err, Error::LabelTooLong { offset: 0 });
}

#[test]
fn reserved_length_byte_bit_pattern_is_rejected_on_decode() {
    let mut pos = 0;
    let buf = [0b0100_0000u8];
    let err = decode_name(&buf, &mut pos).unwrap_err();
    assert_eq!(err, Error::BadNamePointer { offset: 0 });
}

#[test]
fn rdlength_beyond_buffer_is_rejected() {
    let mut buf = Vec::new();
    encode_name(&Name::from_ascii("example.com.").unwrap(), &mut buf).unwrap();
    let mut pos = 0;
    let err = RData::decode(&buf, &mut pos, RecordType::Cname, 9999).unwrap_err();
    assert_eq!(err, Error::Truncated { len: buf.len() });
}

#[test]
fn name_over_255_bytes_is_rejected_on_encode() {
    let label = vec![b'a'; 63];
    let labels = vec![label; 5];
    let name = Name(labels);
    let mut buf = Vec::new();
    let err = encode_name(&name, &mut buf).unwrap_err();
    assert_eq!(err, Error::NameTooLong);
}

#[test]
fn name_is_case_insensitive() {
    let a = Name::from_ascii("EXAMPLE.com").unwrap();
    let b = Name::from_ascii("example.COM").unwrap();
    assert_eq!(a, b);
}

#[test]
fn from_ascii_rejects_empty_label() {
    assert_eq!(Name::from_ascii("a..b").unwrap_err(), Error::InvalidName);
    assert_eq!(Name::from_ascii(".a").unwrap_err(), Error::InvalidName);
}

#[test]
fn deterministic_malformed_wire_corpus_never_panics() {
    for len in 0..=18 {
        for byte in [0x00, 0x01, 0x3f, 0x40, 0x7f, 0x80, 0xbf, 0xc0, 0xff] {
            let wire = vec![byte; len];
            let _ = Message::decode(&wire);
        }
    }
}

#[test]
fn compression_pointer_consumes_only_its_two_wire_bytes() {
    for pointer in 0..64usize {
        let cur = pointer + 1;
        let mut wire = vec![0; cur + 2];
        wire[cur] = 0xc0 | (((pointer >> 8) & 0x3f) as u8);
        wire[cur + 1] = pointer as u8;
        let mut pos = cur;

        assert_eq!(decode_name(&wire, &mut pos).unwrap(), Name::root());
        assert_eq!(pos, cur + 2, "pointer target {pointer}");
    }
}

#[test]
fn pointer_cycle_through_a_label_is_rejected() {
    // A label at offset 12 followed by a pointer back to offset 12.
    let mut bytes = vec![0u8; 12];
    bytes[5] = 1;
    bytes.extend_from_slice(&[1, b'a', 0xC0, 12]);
    let err = Message::decode(&bytes).unwrap_err();
    assert!(matches!(err, Error::BadNamePointer { .. }));
}

#[test]
fn compressed_names_decode_to_the_full_name() {
    // "example.com" at offset 12, then "www" + pointer to it.
    let mut wire = vec![0u8; 12];
    let mut buf = Vec::new();
    encode_name(&Name::from_ascii("example.com").unwrap(), &mut buf).unwrap();
    wire.extend_from_slice(&buf);
    let second = wire.len();
    wire.extend_from_slice(&[3, b'w', b'w', b'w', 0xC0, 12]);
    let mut pos = second;
    let name = decode_name(&wire, &mut pos).unwrap();
    assert_eq!(name, Name::from_ascii("www.example.com").unwrap());
    assert_eq!(pos, wire.len());
}

#[test]
fn header_flags_and_counts_round_trip() {
    let msg = Message {
        header: Header {
            id: 0xBEEF,
            qr: true,
            opcode: Opcode::Status,
            authoritative: true,
            truncated: true,
            recursion_desired: false,
            recursion_available: true,
            rcode: Rcode::Refused,
        },
        questions: vec![],
        answers: vec![],
        authorities: vec![],
        additionals: vec![],
    };
    let bytes = msg.encode().unwrap();
    assert_eq!(bytes.len(), 12);
    assert_eq!(&bytes[0..2], &[0xBE, 0xEF]);
    assert_eq!(bytes[2], 0b1001_0110);
    assert_eq!(bytes[3], 0b1000_0101);
    assert_eq!(Message::decode(&bytes).unwrap(), msg);
}

#[test]
fn reserved_class_zero_is_rejected() {
    assert_eq!(Class::from_u16(0).unwrap_err(), Error::InvalidClass(0));
    assert_eq!(Class::from_u16(1).unwrap(), Class::In);
    assert_eq!(Class::from_u16(3).unwrap(), Class::Ch);
    assert_eq!(RecordType::from_u16(28), RecordType::Aaaa);
    assert_eq!(RecordType::Other(65280).to_u16(), 65280);
}

#[test]
fn rdata_length_mismatch_is_reported() {
    // An A record whose RDLENGTH says 5 bytes.
    let mut buf = vec![0u8; 5];
    let mut pos = 0;
    let err = RData::decode(&buf, &mut pos, RecordType::A, 5).unwrap_err();
    assert_eq!(err, Error::RDataLengthMismatch { declared: 5 });
    buf.truncate(3);
    let mut pos = 0;
    assert!(matches!(
        RData::decode(&buf, &mut pos, RecordType::A, 4).unwrap_err(),
        Error::Truncated { .. }
    ));
}

#[test]
fn names_display_with_trailing_dots() {
    assert_eq!(Name::root().to_string(), ".");
    assert_eq!(Name::from_ascii("Example.com").unwrap().to_string(), "Example.com.");
    assert_eq!(Name(vec![vec![b'a', 0xff], vec![b'b']]).to_string(), "a\u{fffd}.b.");
}

#[test]
fn name_too_long_leaves_the_buffer_untouched() {
    let name = Name(vec![vec![b'a'; 63]; 5]);
    let mut buf = vec![1u8, 2, 3];
    assert_eq!(encode_name(&name, &mut buf), Err(Error::NameTooLong));
    assert_eq!(buf, vec![1u8, 2, 3]);
    let mut empty = Vec::new();
    assert_eq!(encode_name(&name, &mut empty), Err(Error::NameTooLong));
    assert!(empty.is_empty());
}

#[test]
fn message_limit_counts_only_the_message_itself() {
    let m = Message {
        header: base_header(),
        questions: vec![],
        answers: vec![],
        authorities: vec![],
        additionals: vec![],
    };
    let mut buf = vec![0u8; 65530];
    assert_eq!(m.encode_into(&mut buf), Ok(()));
    assert_eq!(buf.len(), 65542);
    assert_eq!(buf[65530..], m.encode().unwrap()[..]);
}
