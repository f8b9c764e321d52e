use dns_forwarder::forward::{accept_single_reply, needs_split};
use dns_forwarder::{DnsError, DnsHeader, DnsMessage, DnsQuestion, DnsRecord, ForwardError, SplitForwarder};

fn q(labels: &[&str]) -> DnsQuestion {
    let text = labels.join(".");
    DnsQuestion { name: DnsQuestion::encode_domain_name(&text), record_type: 1, class: 1 }
}

fn two_question_request() -> DnsMessage {
    DnsMessage {
        header: DnsHeader { id: 0xBEEF, flags: 0x0100, qdcount: 2, ancount: 0, nscount: 0, arcount: 0 },
        questions: vec![q(&["a", "example"]), q(&["b", "example"])],
        answers: vec![],
    }
}

/// What an upstream resolver would send back for a single-question query.
fn upstream_reply(query: &[u8], address: [u8; 4]) -> Vec<u8> {
    let parsed = DnsMessage::from_bytes(query).unwrap();
    let reply = DnsMessage {
        header: DnsHeader { id: parsed.header.id, flags: 0x8180, qdcount: 1, ancount: 1, nscount: 0, arcount: 0 },
        questions: vec![parsed.questions[0].clone()],
        answers: vec![DnsRecord::new(parsed.questions[0].name.clone(), address)],
    };
    reply.to_bytes().to_vec()
}

#[test]
fn multi_question_split_forward() {
    let request = two_question_request();
    assert!(needs_split(&request));
    let mut fwd = SplitForwarder::start(&request);
    let mut sent = 0;
    while let Some(query) = fwd.next_query() {
        let bytes = query.to_forwarded_request_bytes();
        assert_eq!(u16::from_be_bytes([bytes[4], bytes[5]]), 1);
        assert_eq!(bytes[2] & 0x80, 0);
        assert_eq!(u16::from_be_bytes([bytes[0], bytes[1]]), 0xBEEF);
        let reply = upstream_reply(&bytes, [10, 0, 0, sent as u8]);
        fwd.on_reply(Some(&reply));
        sent += 1;
    }
    assert_eq!(sent, 2);
    let combined = fwd.finish().unwrap();
    assert_eq!(combined.header.qdcount, 2);
    assert_eq!(combined.header.ancount, 2);
    assert_eq!(combined.header.id, 0xBEEF);
    assert_eq!(combined.header.flags & 0x8000, 0x8000);
    assert_eq!(combined.questions.len(), 2);
    assert_eq!(combined.answers[0].rdata, vec![10, 0, 0, 0]);
    assert_eq!(combined.answers[1].rdata, vec![10, 0, 0, 1]);
    assert_eq!(combined.answers[1].name, request.questions[1].name);
}

#[test]
fn forward_timeout_fallback() {
    let request = two_question_request();
    let mut fwd = SplitForwarder::start(&request);
    while fwd.next_query().is_some() {
        fwd.on_reply(None);
    }
    assert_eq!(fwd.finish().unwrap_err(), ForwardError::NoUpstreamAnswers);
    let fallback = DnsMessage::new_response_from_request(&request);
    assert_eq!(fallback.header.id, 0xBEEF);
    assert_eq!(fallback.answers.len(), 2);
}

#[test]
fn split_skips_undecodable_replies() {
    let request = two_question_request();
    let mut fwd = SplitForwarder::start(&request);
    let first = fwd.next_query().unwrap().to_forwarded_request_bytes();
    fwd.on_reply(Some(&[0u8, 1, 2][..]));
    let second = fwd.next_query().unwrap().to_forwarded_request_bytes();
    assert_ne!(&first[..], &second[..]);
    let reply = upstream_reply(&second, [9, 9, 9, 9]);
    fwd.on_reply(Some(&reply));
    assert!(fwd.next_query().is_none());
    let combined = fwd.finish().unwrap();
    assert_eq!(combined.header.ancount, 1);
    assert_eq!(combined.answers.len(), 1);
    assert_eq!(combined.questions.len(), 2);
}

#[test]
fn single_question_reply_takes_request_id() {
    let request = DnsMessage {
        header: DnsHeader { id: 0x1111, flags: 0x0100, qdcount: 1, ancount: 0, nscount: 0, arcount: 0 },
        questions: vec![q(&["a", "example"])],
        answers: vec![],
    };
    assert!(!needs_split(&request));
    let query = request.to_forwarded_request_bytes();
    let mut reply = upstream_reply(&query, [5, 6, 7, 8]);
    reply[0] = 0x22;
    reply[1] = 0x22;
    let m = accept_single_reply(&request, &reply).unwrap();
    assert_eq!(m.header.id, 0x1111);
    assert_eq!(m.answers[0].rdata, vec![5, 6, 7, 8]);
    assert_eq!(
        accept_single_reply(&request, &reply[..5]).unwrap_err(),
        ForwardError::Decode(DnsError::BufferTruncated)
    );
}
