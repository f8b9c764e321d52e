use dns_forwarder::dns_question::parse_domain_name;
use dns_forwarder::{DnsError, DnsHeader, DnsMessage, DnsQuestion, DnsRecord};

fn name_bytes(labels: &[&str]) -> Vec<u8> {
    let mut v = Vec::new();
    for l in labels {
        v.push(l.len() as u8);
        v.extend_from_slice(l.as_bytes());
    }
    v.push(0);
    v
}

fn header_bytes(id: u16, flags: u16, qd: u16, an: u16, ns: u16, ar: u16) -> Vec<u8> {
    let mut v = Vec::new();
    for x in [id, flags, qd, an, ns, ar] {
        v.extend_from_slice(&x.to_be_bytes());
    }
    v
}

fn codecrafters_request() -> Vec<u8> {
    let mut req = header_bytes(0x1234, 0x0100, 1, 0, 0, 0);
    req.extend_from_slice(&name_bytes(&["codecrafters", "io"]));
    req.extend_from_slice(&[0x00, 0x01, 0x00, 0x01]);
    req
}

#[test]
fn minimal_a_query_self_answered() {
    let req = codecrafters_request();
    let request = DnsMessage::from_bytes(&req).unwrap();
    let response = DnsMessage::new_response_from_request(&request);
    let bytes = response.to_bytes();
    // RD is copied from the request, so the flags are 0x8100.
    let mut expected = header_bytes(0x1234, 0x8100, 1, 1, 0, 0);
    let name = name_bytes(&["codecrafters", "io"]);
    expected.extend_from_slice(&name);
    expected.extend_from_slice(&[0x00, 0x01, 0x00, 0x01]);
    expected.extend_from_slice(&name);
    expected.extend_from_slice(&[0x00, 0x01, 0x00, 0x01, 0x00, 0x00, 0x00, 0x3c, 0x00, 0x04]);
    expected.extend_from_slice(&[0x4c, 0x4c, 0x15, 0x15]);
    assert_eq!(&bytes[..], &expected[..]);
}

#[test]
fn self_answer_with_rd_clear_has_flags_8000() {
    let mut req = codecrafters_request();
    req[2] = 0x00;
    req[3] = 0x00;
    let request = DnsMessage::from_bytes(&req).unwrap();
    let response = DnsMessage::new_response_from_request(&request);
    let bytes = response.to_bytes();
    assert_eq!(&bytes[..12], &header_bytes(0x1234, 0x8000, 1, 1, 0, 0)[..]);
}

#[test]
fn opcode_gives_rcode_not_implemented() {
    let req = DnsHeader { id: 7, flags: 0x0800, qdcount: 1, ancount: 0, nscount: 0, arcount: 0 };
    let resp = DnsHeader::new(&req, 1, 1);
    assert_eq!(resp.flags, 0x8804);
    assert_eq!(resp.id, 7);
    assert_eq!(resp.flags & 0xF, 4);
}

#[test]
fn response_header_copies_opcode_and_rd() {
    let req = DnsHeader { id: 0xABCD, flags: 0xFFFF, qdcount: 9, ancount: 9, nscount: 9, arcount: 9 };
    let resp = DnsHeader::new(&req, 2, 3);
    assert_eq!(resp.flags, 0x8000 | (0xF << 11) | (1 << 8) | 4);
    assert_eq!((resp.id, resp.qdcount, resp.ancount, resp.nscount, resp.arcount), (0xABCD, 2, 3, 0, 0));
    let std_query = DnsHeader { id: 1, flags: 0x0000, qdcount: 0, ancount: 0, nscount: 0, arcount: 0 };
    assert_eq!(DnsHeader::new(&std_query, 0, 0).flags, 0x8000);
}

#[test]
fn name_compression_pointer() {
    let mut buf = header_bytes(1, 0x0100, 2, 0, 0, 0);
    buf.extend_from_slice(&name_bytes(&["codecrafters", "io"]));
    buf.extend_from_slice(&[0x00, 0x01, 0x00, 0x01]);
    let second = buf.len();
    buf.extend_from_slice(&[0xc0, 0x0c]);
    buf.extend_from_slice(&[0x00, 0x01, 0x00, 0x01]);
    let (name, consumed) = parse_domain_name(&buf, second).unwrap();
    assert_eq!(name, name_bytes(&["codecrafters", "io"]));
    assert_eq!(consumed, 2);
    let (q, qconsumed) = DnsQuestion::from_bytes(&buf, second).unwrap();
    assert_eq!(q.name, name_bytes(&["codecrafters", "io"]));
    assert_eq!(qconsumed, 6);
    let m = DnsMessage::from_bytes(&buf).unwrap();
    assert_eq!(m.questions.len(), 2);
    assert_eq!(m.questions[0].name, m.questions[1].name);
}

#[test]
fn pointer_after_labels_is_followed() {
    let mut buf = name_bytes(&["example", "com"]);
    let start = buf.len();
    buf.extend_from_slice(&[3, b'w', b'w', b'w', 0xc0, 0x00]);
    let (name, consumed) = parse_domain_name(&buf, start).unwrap();
    assert_eq!(name, name_bytes(&["www", "example", "com"]));
    assert_eq!(consumed, 6);
}

#[test]
fn pointer_loop_is_too_many_jumps() {
    let buf = vec![0xc0, 0x00];
    assert_eq!(parse_domain_name(&buf, 0).unwrap_err(), DnsError::TooManyJumps);
}

#[test]
fn ten_jumps_are_allowed_eleven_are_not() {
    // A chain of pointers: byte pair i points at pair i + 1; the last pair is a root name.
    let mut buf = Vec::new();
    for i in 0..10u8 {
        buf.extend_from_slice(&[0xc0, 2 * (i + 1)]);
    }
    buf.push(0);
    assert_eq!(parse_domain_name(&buf, 0).unwrap(), (vec![0], 2));
    let mut longer = vec![0xc0, 0x02];
    for i in 0..10u8 {
        longer.extend_from_slice(&[0xc0, 2 * (i + 2)]);
    }
    longer.push(0);
    assert_eq!(parse_domain_name(&longer, 0).unwrap_err(), DnsError::TooManyJumps);
}

#[test]
fn one_byte_pointer_is_truncated() {
    let buf = vec![3, b'a', b'b', b'c', 0xc0];
    assert_eq!(parse_domain_name(&buf, 0).unwrap_err(), DnsError::BufferTruncated);
}

#[test]
fn label_past_end_is_truncated() {
    let buf = vec![5, b'a', b'b'];
    assert_eq!(parse_domain_name(&buf, 0).unwrap_err(), DnsError::BufferTruncated);
    assert_eq!(parse_domain_name(&buf, 9).unwrap_err(), DnsError::BufferTruncated);
}

#[test]
fn encode_domain_name_exact() {
    let e = DnsQuestion::encode_domain_name("codecrafters.io");
    let mut expected = vec![12u8];
    expected.extend_from_slice(b"codecrafters");
    expected.push(2);
    expected.extend_from_slice(b"io");
    expected.push(0);
    assert_eq!(e, expected);
}

#[test]
fn encode_domain_name_skips_empty_labels() {
    assert_eq!(DnsQuestion::encode_domain_name("a..b."), vec![1, b'a', 1, b'b', 0]);
    assert_eq!(DnsQuestion::encode_domain_name(""), vec![0]);
    assert_eq!(DnsQuestion::encode_domain_name("."), vec![0]);
}

#[test]
fn encode_then_decode_name_is_identity() {
    for s in ["codecrafters.io", "a.example", "x", "www.example.co.uk"] {
        let q = DnsQuestion { name: DnsQuestion::encode_domain_name(s), record_type: 1, class: 1 };
        assert_eq!(q.decode_name().unwrap(), s);
    }
}

#[test]
fn decode_name_rejects_bad_names() {
    let bad_utf8 = DnsQuestion { name: vec![2, 0xff, 0xfe, 0], record_type: 1, class: 1 };
    assert_eq!(bad_utf8.decode_name().unwrap_err(), DnsError::InvalidName);
    let too_long = DnsQuestion { name: vec![4, b'a', b'b'], record_type: 1, class: 1 };
    assert_eq!(too_long.decode_name().unwrap_err(), DnsError::InvalidName);
    let root = DnsQuestion { name: vec![0], record_type: 1, class: 1 };
    assert_eq!(root.decode_name().unwrap(), "");
}

#[test]
fn decode_name_keeps_utf8_labels() {
    let q = DnsQuestion { name: vec![2, 0xc3, 0xa9, 1, b'x', 0], record_type: 1, class: 1 };
    assert_eq!(q.decode_name().unwrap(), "\u{e9}.x");
}

#[test]
fn default_question_and_record() {
    let q = DnsQuestion::new();
    assert_eq!(q.name, name_bytes(&["codecrafters", "io"]));
    assert_eq!((q.record_type, q.class), (1, 1));
    let r = DnsRecord::default_codecrafters_record();
    assert_eq!(r.name, name_bytes(&["codecrafters", "io"]));
    assert_eq!((r.record_type, r.class, r.ttl), (1, 1, 60));
    assert_eq!(r.rdata, vec![76, 76, 21, 21]);
}

#[test]
fn header_round_trip_and_short_header() {
    let h = DnsHeader { id: 0x0102, flags: 0x0304, qdcount: 0x0506, ancount: 0x0708, nscount: 0x090a, arcount: 0x0b0c };
    let b = h.to_bytes();
    assert_eq!(&b[..], &[1u8, 2, 3, 4, 5, 6, 7, 8, 9, 10, 11, 12][..]);
    assert_eq!(DnsHeader::from_bytes(&b).unwrap(), h);
    assert_eq!(DnsHeader::from_bytes(&b[..11]).unwrap_err(), DnsError::BufferTruncated);
}

#[test]
fn question_to_bytes_exact() {
    let q = DnsQuestion { name: vec![1, b'a', 0], record_type: 0x1234, class: 0x0001 };
    assert_eq!(&q.to_bytes()[..], &[1u8, b'a', 0, 0x12, 0x34, 0x00, 0x01][..]);
}

#[test]
fn question_missing_type_is_truncated() {
    let buf = vec![1, b'a', 0, 0x00, 0x01, 0x00];
    assert_eq!(DnsQuestion::from_bytes(&buf, 0).unwrap_err(), DnsError::BufferTruncated);
    assert_eq!(DnsQuestion::from_bytes(&buf, 6).unwrap_err(), DnsError::BufferTruncated);
}

#[test]
fn record_round_trip() {
    let r = DnsRecord::new(vec![1, b'a', 0], [10, 0, 0, 1]);
    let b = r.to_bytes();
    assert_eq!(
        &b[..],
        &[1u8, b'a', 0, 0, 1, 0, 1, 0, 0, 0, 60, 0, 4, 10, 0, 0, 1][..]
    );
    let (back, consumed) = DnsRecord::from_bytes(&b, 0).unwrap();
    assert_eq!(consumed, b.len());
    assert_eq!(back.name, r.name);
    assert_eq!((back.record_type, back.class, back.ttl), (1, 1, 60));
    assert_eq!(back.rdata, vec![10, 0, 0, 1]);
}

#[test]
fn record_with_short_data_is_truncated() {
    let b = vec![0u8, 0, 1, 0, 1, 0, 0, 0, 60, 0, 4, 10, 0];
    assert_eq!(DnsRecord::from_bytes(&b, 0).unwrap_err(), DnsError::BufferTruncated);
    let fixed_short = vec![0u8, 0, 1, 0, 1];
    assert_eq!(DnsRecord::from_bytes(&fixed_short, 0).unwrap_err(), DnsError::BufferTruncated);
}

#[test]
fn message_keeps_answers_before_a_bad_one() {
    let mut buf = header_bytes(5, 0x8180, 1, 2, 0, 0);
    buf.extend_from_slice(&name_bytes(&["a"]));
    buf.extend_from_slice(&[0, 1, 0, 1]);
    buf.extend_from_slice(&[0xc0, 0x0c, 0, 1, 0, 1, 0, 0, 0, 60, 0, 4, 1, 2, 3, 4]);
    buf.extend_from_slice(&[0xc0, 0x0c, 0, 1]);
    let m = DnsMessage::from_bytes(&buf).unwrap();
    assert_eq!(m.answers.len(), 1);
    assert_eq!(m.answers[0].rdata, vec![1, 2, 3, 4]);
    assert_eq!(m.answers[0].name, name_bytes(&["a"]));
}

#[test]
fn message_with_missing_question_fails() {
    let buf = header_bytes(5, 0x0100, 1, 0, 0, 0);
    assert_eq!(DnsMessage::from_bytes(&buf).unwrap_err(), DnsError::BufferTruncated);
    assert_eq!(DnsMessage::from_bytes(&buf[..4]).unwrap_err(), DnsError::BufferTruncated);
}

#[test]
fn message_round_trip() {
    let q = DnsQuestion { name: name_bytes(&["a", "example"]), record_type: 1, class: 1 };
    let r = DnsRecord::new(name_bytes(&["a", "example"]), [1, 2, 3, 4]);
    let m = DnsMessage {
        header: DnsHeader { id: 9, flags: 0x8180, qdcount: 1, ancount: 1, nscount: 0, arcount: 0 },
        questions: vec![q],
        answers: vec![r],
    };
    let b = m.to_bytes();
    let back = DnsMessage::from_bytes(&b).unwrap();
    assert_eq!(back.header, m.header);
    assert_eq!(back.questions[0].name, m.questions[0].name);
    assert_eq!(back.answers[0].rdata, vec![1, 2, 3, 4]);
    assert_eq!(&back.to_bytes()[..], &b[..]);
}

#[test]
fn forwarded_request_clears_qr_and_drops_answers() {
    let m = DnsMessage {
        header: DnsHeader { id: 0x4242, flags: 0x8100, qdcount: 1, ancount: 1, nscount: 3, arcount: 4 },
        questions: vec![DnsQuestion { name: vec![1, b'a', 0], record_type: 1, class: 1 }],
        answers: vec![DnsRecord::new(vec![1, b'a', 0], [1, 1, 1, 1])],
    };
    let b = m.to_forwarded_request_bytes();
    let mut expected = header_bytes(0x4242, 0x0100, 1, 0, 0, 0);
    expected.extend_from_slice(&[1, b'a', 0, 0, 1, 0, 1]);
    assert_eq!(&b[..], &expected[..]);
    assert_eq!(b[2] & 0x80, 0);
}

#[test]
fn record_type_salvage() {
    let mut req = header_bytes(0x0102, 0x0100, 3, 0, 0, 0);
    req.extend_from_slice(&name_bytes(&["big", "example"]));
    req.extend_from_slice(&4242u16.to_be_bytes());
    req.extend_from_slice(&[0, 1]);
    req.extend_from_slice(&name_bytes(&["mx", "example"]));
    req.extend_from_slice(&[0, 15, 0, 1]);
    req.extend_from_slice(&name_bytes(&["edge", "example"]));
    req.extend_from_slice(&1000u16.to_be_bytes());
    req.extend_from_slice(&[0, 3]);
    let request = DnsMessage::from_bytes(&req).unwrap();
    assert_eq!(request.questions[0].record_type, 4242);
    let resp = DnsMessage::new_response_from_request(&request);
    assert_eq!(resp.questions.len(), 1);
    assert_eq!(resp.questions[0].name, name_bytes(&["big", "example"]));
    assert_eq!((resp.questions[0].record_type, resp.questions[0].class), (1, 1));
    assert_eq!(resp.answers.len(), 1);
    assert_eq!(resp.answers[0].record_type, 1);
    assert_eq!(resp.answers[0].rdata, vec![76, 76, 21, 21]);
    assert_eq!((resp.header.qdcount, resp.header.ancount), (1, 1));
}

#[test]
fn response_from_header_only() {
    let h = DnsHeader { id: 77, flags: 0x0100, qdcount: 4, ancount: 0, nscount: 0, arcount: 0 };
    let resp = DnsMessage::new_response_from_request_header(&h);
    assert_eq!(resp.header, DnsHeader { id: 77, flags: 0x8100, qdcount: 1, ancount: 1, nscount: 0, arcount: 0 });
    assert_eq!(resp.questions[0].name, name_bytes(&["codecrafters", "io"]));
    assert_eq!(resp.answers[0].rdata, vec![76, 76, 21, 21]);
}

#[test]
fn error_messages() {
    assert_eq!(DnsError::TooManyJumps.message(), "too many compression pointers");
    assert_eq!(DnsError::BufferTruncated.message(), "buffer truncated");
    assert_eq!(DnsError::InvalidName.message(), "invalid domain name");
}
