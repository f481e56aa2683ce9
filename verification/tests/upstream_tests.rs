use base64::Engine;
use dns_lattice::server::{response_for, servfail_response, udp_datagram};
use dns_lattice::upstream::{
    classify_quic_failure, doh_get_target, doh_get_target_from, frame_message, tls_or_transport,
    udp_reply, UDP_MAX_RESPONSE_LEN,
};
use dns_lattice::{
    Class, DohMethod, Error, Header, Message, Name, Opcode, Question, RData, Rcode, RecordType,
    ResourceRecord, UdpReply,
};

fn query(id: u16) -> Message {
    Message {
        header: Header {
            id,
            qr: false,
            opcode: Opcode::Query,
            authoritative: false,
            truncated: false,
            recursion_desired: true,
            recursion_available: false,
            rcode: Rcode::NoError,
        },
        questions: vec![Question {
            name: Name::from_ascii("example.com").unwrap(),
            qtype: RecordType::A,
            qclass: Class::In,
        }],
        answers: vec![],
        authorities: vec![],
        additionals: vec![],
    }
}

fn big_answer(records: usize) -> Message {
    let mut m = query(9);
    m.header.qr = true;
    for i in 0..records {
        m.answers.push(ResourceRecord {
            name: Name::from_ascii("example.com").unwrap(),
            rtype: RecordType::A,
            class: Class::In,
            ttl: 60,
            rdata: RData::A([10, 0, (i / 256) as u8, (i % 256) as u8]),
        });
    }
    m
}

#[test]
fn framing_prefixes_the_big_endian_length() {
    let q = query(0x0102);
    let encoded = q.encode().unwrap();
    let framed = frame_message(&q).unwrap();
    assert_eq!(framed.len(), encoded.len() + 2);
    assert_eq!(u16::from_be_bytes([framed[0], framed[1]]) as usize, encoded.len());
    assert_eq!(&framed[2..], &encoded[..]);
    assert_eq!(Message::decode(&framed[2..]).unwrap(), q);
}

#[test]
fn framing_reports_encoding_errors() {
    let mut q = query(1);
    q.questions[0].name = Name(vec![vec![b'a'; 64]]);
    assert_eq!(frame_message(&q).unwrap_err(), Error::LabelTooLong { offset: 12 });
}

#[test]
fn truncated_udp_reply_retries_over_tcp() {
    let mut m = query(3);
    m.header.qr = true;
    let complete = m.encode().unwrap();
    match udp_reply(&complete).unwrap() {
        UdpReply::Answer(a) => assert_eq!(a, m),
        UdpReply::RetryOverTcp => panic!("complete answer retried"),
    }
    m.header.truncated = true;
    let truncated = m.encode().unwrap();
    assert!(matches!(udp_reply(&truncated).unwrap(), UdpReply::RetryOverTcp));
    assert_eq!(udp_reply(&[0u8; 3]).unwrap_err(), Error::Truncated { len: 3 });
}

#[test]
fn doh_get_target_appends_the_base64url_query() {
    let q = query(0);
    let payload = q.encode().unwrap();
    let encoded = base64::engine::general_purpose::URL_SAFE_NO_PAD.encode(&payload);
    assert!(!encoded.contains('='));
    assert_eq!(
        doh_get_target("/dns-query", &q).unwrap(),
        format!("/dns-query?dns={encoded}")
    );
    assert_ne!(doh_get_target("/dns-query", &q).unwrap(), format!("/dns-query?dns={}", String::from_utf8_lossy(&payload)));
}

#[test]
fn doh_get_target_joins_an_existing_query_with_an_ampersand() {
    assert_eq!(doh_get_target_from("/q?x=1", "AAAB"), "/q?x=1&dns=AAAB");
    assert_eq!(doh_get_target_from("/", "AAAB"), "/?dns=AAAB");
    assert_eq!(DohMethod::Get, DohMethod::Get);
    assert_ne!(DohMethod::Get, DohMethod::Post);
}

#[test]
fn transport_failures_are_classified() {
    assert_eq!(
        tls_or_transport(true, "bad certificate".to_string()),
        Error::Tls("bad certificate".to_string())
    );
    assert_eq!(
        tls_or_transport(false, "reset".to_string()),
        Error::Transport("reset".to_string())
    );
    assert_eq!(
        classify_quic_failure(true, "aborted by peer: the cryptographic handshake failed: error 48"),
        Error::Tls("aborted by peer: the cryptographic handshake failed: error 48".to_string())
    );
    assert_eq!(
        classify_quic_failure(false, "the cryptographic handshake failed"),
        Error::Transport("the cryptographic handshake failed".to_string())
    );
    assert_eq!(
        classify_quic_failure(true, "timed out"),
        Error::Transport("timed out".to_string())
    );
}

#[test]
fn servfail_echoes_the_query() {
    let q = query(77);
    let r = servfail_response(&q);
    assert_eq!(r.header.id, 77);
    assert!(r.header.qr);
    assert_eq!(r.header.rcode, Rcode::ServFail);
    assert_eq!(r.questions, q.questions);
    assert!(r.answers.is_empty() && r.authorities.is_empty() && r.additionals.is_empty());
    assert_eq!(response_for(&q, Err(Error::NoRoute)), r);
    let answer = big_answer(1);
    assert_eq!(response_for(&q, Ok(answer.clone())), answer);
}

#[test]
fn oversized_udp_response_is_truncated_with_tc_set() {
    let small = big_answer(1);
    assert_eq!(udp_datagram(small.clone()).unwrap(), small.encode().unwrap());

    let big = big_answer(40);
    assert!(big.encode().unwrap().len() > UDP_MAX_RESPONSE_LEN);
    let bytes = udp_datagram(big.clone()).unwrap();
    assert!(bytes.len() <= UDP_MAX_RESPONSE_LEN);
    let decoded = Message::decode(&bytes).unwrap();
    assert!(decoded.header.truncated);
    assert!(decoded.answers.is_empty());
    assert_eq!(decoded.questions, big.questions);
    assert_eq!(decoded.header.id, big.header.id);

    let mut broken = query(1);
    broken.questions[0].name = Name(vec![vec![b'a'; 64]]);
    assert!(udp_datagram(broken).is_none());
}
