//! Whole messages: decoding, encoding, self-answered responses and the
//! query form sent upstream.
use crate::dns_header::{flag_qr, header_bytes, parse_header, response_header, DnsHeader, HEADER_LEN};
use crate::dns_name::{encode_name, lemma_occurs_split, occurs_at, plain_name};
use crate::dns_question::{
    lemma_question_round_trip, parse_question, question_bytes, DnsQuestion, QuestionView,
    DEFAULT_DOMAIN,
};
use crate::dns_record::{
    a_record, default_address, default_ipv4, lemma_record_round_trip, parse_record, record_bytes, DnsRecord, RecordView,
    CLASS_IN, TYPE_A,
};
use crate::error::DnsError;
use crate::wire::{buf_contents, buf_extend, buf_limit, buf_put_u16, buf_put_u32, u16_at};
use bytes::BytesMut;
use vstd::prelude::*;
use vstd::string::StringSliceAdditionalSpecFns;

verus! {

/// A message: the header, the question section and the answer section.
#[derive(Debug)]
pub struct DnsMessage {
    pub header: DnsHeader,
    pub questions: Vec<DnsQuestion>,
    pub answers: Vec<DnsRecord>,
}

/// The value of a message.
pub struct MessageView {
    pub header: DnsHeader,
    pub questions: Seq<QuestionView>,
    pub answers: Seq<RecordView>,
}

/// The values of a sequence of questions.
pub open spec fn question_views(qs: Seq<DnsQuestion>) -> Seq<QuestionView> {
    Seq::new(qs.len(), |i: int| qs[i]@)
}

/// The values of a sequence of records.
pub open spec fn record_views(rs: Seq<DnsRecord>) -> Seq<RecordView> {
    Seq::new(rs.len(), |i: int| rs[i]@)
}

impl View for DnsMessage {
    type V = MessageView;

    open spec fn view(&self) -> MessageView {
        MessageView {
            header: self.header,
            questions: question_views(self.questions@),
            answers: record_views(self.answers@),
        }
    }
}

/// The questions written one after another.
pub open spec fn questions_bytes(qs: Seq<QuestionView>) -> Seq<u8>
    decreases qs.len(),
{
    if qs.len() == 0 {
        Seq::empty()
    } else {
        questions_bytes(qs.drop_last()) + question_bytes(qs.last())
    }
}

/// The records written one after another.
pub open spec fn records_bytes(rs: Seq<RecordView>) -> Seq<u8>
    decreases rs.len(),
{
    if rs.len() == 0 {
        Seq::empty()
    } else {
        records_bytes(rs.drop_last()) + record_bytes(rs.last())
    }
}

/// The wire form of a message: header, questions, answers; names are never compressed.
pub open spec fn message_bytes(m: MessageView) -> Seq<u8> {
    header_bytes(m.header) + questions_bytes(m.questions) + records_bytes(m.answers)
}

/// The header of the query sent upstream: the id, the flags with QR clear, the
/// question count, and no other sections.
pub open spec fn upstream_header(h: DnsHeader) -> DnsHeader {
    DnsHeader { id: h.id, flags: h.flags & 0x7FFF, qdcount: h.qdcount, ancount: 0, nscount: 0, arcount: 0 }
}

/// The wire form of the query sent upstream: that header and the questions, no answers.
pub open spec fn upstream_query_bytes(m: MessageView) -> Seq<u8> {
    header_bytes(upstream_header(m.header)) + questions_bytes(m.questions)
}

/// Parsing `n` questions from `pos` on: the questions and the position after them.
pub open spec fn parse_questions(buf: Seq<u8>, pos: int, n: nat) -> Result<(Seq<QuestionView>, int), DnsError>
    decreases n,
{
    if n == 0 {
        Ok((Seq::empty(), pos))
    } else {
        match parse_question(buf, pos) {
            Err(e) => Err(e),
            Ok((q, c)) => match parse_questions(buf, pos + c, (n - 1) as nat) {
                Err(e) => Err(e),
                Ok((qs, end)) => Ok((seq![q] + qs, end)),
            },
        }
    }
}

/// Parsing up to `n` records from `pos` on; the first record that fails to parse
/// ends the section.
pub open spec fn parse_answers(buf: Seq<u8>, pos: int, n: nat) -> Seq<RecordView>
    decreases n,
{
    if n == 0 {
        Seq::empty()
    } else {
        match parse_record(buf, pos) {
            Err(_) => Seq::empty(),
            Ok((r, c)) => seq![r] + parse_answers(buf, pos + c, (n - 1) as nat),
        }
    }
}

/// Parsing a message: the header, exactly `qdcount` questions, then up to
/// `ancount` answers; the authority and additional sections are not read.
pub open spec fn parse_message(buf: Seq<u8>) -> Result<MessageView, DnsError> {
    match parse_header(buf) {
        Err(e) => Err(e),
        Ok(h) => match parse_questions(buf, 12, h.qdcount as nat) {
            Err(e) => Err(e),
            Ok((qs, end)) => Ok(
                MessageView { header: h, questions: qs, answers: parse_answers(buf, end, h.ancount as nat) },
            ),
        },
    }
}

/// The record type a question is answered as: A for type 1 and for any type
/// above 1000 (taken as a mangled A query), otherwise the type itself.
pub open spec fn normalized_type(t: u16) -> u16 {
    if t == 1 || t > 1000 {
        1
    } else {
        t
    }
}

/// Whether the self-answering responder answers a question.
pub open spec fn is_answered(q: QuestionView) -> bool {
    normalized_type(q.record_type) == TYPE_A
}

/// The questions of a self-answered response: each answered question, as type A class IN.
pub open spec fn response_questions(qs: Seq<QuestionView>) -> Seq<QuestionView>
    decreases qs.len(),
{
    if qs.len() == 0 {
        Seq::empty()
    } else {
        let rest = response_questions(qs.drop_last());
        if is_answered(qs.last()) {
            rest.push(QuestionView { name: qs.last().name, record_type: TYPE_A, class: CLASS_IN })
        } else {
            rest
        }
    }
}

/// The answers of a self-answered response: an A record with the default address
/// for each answered question.
pub open spec fn response_answers(qs: Seq<QuestionView>) -> Seq<RecordView>
    decreases qs.len(),
{
    if qs.len() == 0 {
        Seq::empty()
    } else {
        let rest = response_answers(qs.drop_last());
        if is_answered(qs.last()) {
            rest.push(a_record(qs.last().name, default_address()))
        } else {
            rest
        }
    }
}

/// The self-answered response to a request with header `h` and questions `qs`.
pub open spec fn self_response(h: DnsHeader, qs: Seq<QuestionView>) -> MessageView {
    MessageView {
        header: response_header(h, response_questions(qs).len() as u16, response_answers(qs).len() as u16),
        questions: response_questions(qs),
        answers: response_answers(qs),
    }
}

/// The question of the header-only fallback response: `codecrafters.io`, type A, class IN.
pub open spec fn default_question() -> QuestionView {
    QuestionView { name: encode_name(DEFAULT_DOMAIN.spec_bytes()), record_type: TYPE_A, class: CLASS_IN }
}

/// The two response sections are as long as each other, and no longer than the request.
pub proof fn lemma_response_lengths(qs: Seq<QuestionView>)
    ensures
        response_questions(qs).len() == response_answers(qs).len(),
        response_questions(qs).len() <= qs.len(),
    decreases qs.len(),
{
    if qs.len() > 0 {
        lemma_response_lengths(qs.drop_last());
    }
}

/// A prefix of the questions takes no more bytes than all of them.
proof fn lemma_questions_bytes_prefix(qs: Seq<QuestionView>, i: int)
    requires
        0 <= i <= qs.len(),
    ensures
        questions_bytes(qs.take(i)).len() <= questions_bytes(qs).len(),
    decreases qs.len() - i,
{
    if i == qs.len() {
        assert(qs.take(i) =~= qs);
    } else {
        lemma_questions_bytes_prefix(qs.drop_last(), i);
        assert(qs.drop_last().take(i) =~= qs.take(i));
    }
}

/// A prefix of the records takes no more bytes than all of them.
proof fn lemma_records_bytes_prefix(rs: Seq<RecordView>, i: int)
    requires
        0 <= i <= rs.len(),
    ensures
        records_bytes(rs.take(i)).len() <= records_bytes(rs).len(),
    decreases rs.len() - i,
{
    if i == rs.len() {
        assert(rs.take(i) =~= rs);
    } else {
        lemma_records_bytes_prefix(rs.drop_last(), i);
        assert(rs.drop_last().take(i) =~= rs.take(i));
    }
}

/// Appends the questions to `bytes`.
fn put_questions(bytes: &mut BytesMut, questions: &Vec<DnsQuestion>)
    requires
        buf_contents(*old(bytes)).len() + questions_bytes(question_views(questions@)).len() <= buf_limit(),
    ensures
        buf_contents(*final(bytes)) == buf_contents(*old(bytes)) + questions_bytes(question_views(questions@)),
{
    let ghost qs = question_views(questions@);
    let ghost init = buf_contents(*bytes);
    let mut i: usize = 0;
    assert(qs.take(0) =~= Seq::<QuestionView>::empty());
    while i < questions.len()
        invariant
            qs == question_views(questions@),
            init.len() + questions_bytes(qs).len() <= buf_limit(),
            i <= questions@.len(),
            buf_contents(*bytes) == init + questions_bytes(qs.take(i as int)),
        decreases questions@.len() - i,
    {
        let q = &questions[i];
        proof {
            assert(qs.take(i + 1).drop_last() =~= qs.take(i as int));
            lemma_questions_bytes_prefix(qs, i + 1);
        }
        buf_extend(bytes, q.name.as_slice());
        buf_put_u16(bytes, q.record_type);
        buf_put_u16(bytes, q.class);
        assert(buf_contents(*bytes) =~= init + questions_bytes(qs.take(i + 1)));
        i = i + 1;
    }
    assert(qs.take(i as int) =~= qs);
}

/// Appends the records to `bytes`.
fn put_records(bytes: &mut BytesMut, records: &Vec<DnsRecord>)
    requires
        buf_contents(*old(bytes)).len() + records_bytes(record_views(records@)).len() <= buf_limit(),
    ensures
        buf_contents(*final(bytes)) == buf_contents(*old(bytes)) + records_bytes(record_views(records@)),
{
    let ghost rs = record_views(records@);
    let ghost init = buf_contents(*bytes);
    let mut i: usize = 0;
    assert(rs.take(0) =~= Seq::<RecordView>::empty());
    while i < records.len()
        invariant
            rs == record_views(records@),
            init.len() + records_bytes(rs).len() <= buf_limit(),
            i <= records@.len(),
            buf_contents(*bytes) == init + records_bytes(rs.take(i as int)),
        decreases records@.len() - i,
    {
        let r = &records[i];
        proof {
            assert(rs.take(i + 1).drop_last() =~= rs.take(i as int));
            lemma_records_bytes_prefix(rs, i + 1);
        }
        buf_extend(bytes, r.name.as_slice());
        buf_put_u16(bytes, r.record_type);
        buf_put_u16(bytes, r.class);
        buf_put_u32(bytes, r.ttl);
        buf_put_u16(bytes, (r.rdata.len() % 0x1_0000) as u16);
        buf_extend(bytes, r.rdata.as_slice());
        assert(buf_contents(*bytes) =~= init + records_bytes(rs.take(i + 1)));
        i = i + 1;
    }
    assert(rs.take(i as int) =~= rs);
}

/// Builds the self-answered response sections for `questions`.
fn respond_to(request_header: &DnsHeader, questions: &Vec<DnsQuestion>) -> (r: DnsMessage)
    requires
        questions@.len() <= 0xFFFF,
    ensures
        r@ == self_response(*request_header, question_views(questions@)),
{
    let ghost qs = question_views(questions@);
    let mut answers: Vec<DnsRecord> = Vec::new();
    let mut valid_questions: Vec<DnsQuestion> = Vec::new();
    let mut i: usize = 0;
    assert(qs.take(0) =~= Seq::<QuestionView>::empty());
    assert(question_views(valid_questions@) =~= Seq::<QuestionView>::empty());
    assert(record_views(answers@) =~= Seq::<RecordView>::empty());
    while i < questions.len()
        invariant
            qs == question_views(questions@),
            i <= questions@.len(),
            question_views(valid_questions@) == response_questions(qs.take(i as int)),
            record_views(answers@) == response_answers(qs.take(i as int)),
        decreases questions@.len() - i,
    {
        let question = &questions[i];
        assert(qs.take(i + 1).drop_last() =~= qs.take(i as int));
        assert(qs.take(i + 1).last() == question@);
        let record_type: u16 = if question.record_type == 1 || question.record_type > 1000 {
            1
        } else {
            question.record_type
        };
        if record_type == TYPE_A {
            let valid_question = DnsQuestion {
                name: question.name.clone(),
                record_type: TYPE_A,
                class: CLASS_IN,
            };
            let ghost vq = valid_questions@;
            valid_questions.push(valid_question);
            assert(question_views(valid_questions@) =~= question_views(vq).push(valid_question@));
            let ghost va = answers@;
            answers.push(DnsRecord::new(question.name.clone(), default_ipv4()));
            assert(record_views(answers@) =~= record_views(va).push(answers@.last()@));
        }
        i = i + 1;
    }
    assert(qs.take(i as int) =~= qs);
    proof {
        lemma_response_lengths(qs);
    }
    let header = DnsHeader::new(
        request_header,
        valid_questions.len() as u16,
        answers.len() as u16,
    );
    DnsMessage { header, questions: valid_questions, answers }
}

impl DnsMessage {
    /// Decodes a message: the header, exactly `qdcount` questions, then up to
    /// `ancount` answers, stopping quietly at the first answer that does not parse.
    pub fn from_bytes(bytes: &[u8]) -> (r: Result<DnsMessage, DnsError>)
        ensures
            match r {
                Ok(m) => parse_message(bytes@) == Ok::<MessageView, DnsError>(m@),
                Err(e) => parse_message(bytes@) == Err::<MessageView, DnsError>(e),
            },
            r matches Ok(m) ==> m.questions@.len() == m.header.qdcount,
    {
        let ghost buf = bytes@;
        let blen = bytes.len();
        let header = match DnsHeader::from_bytes(bytes) {
            Ok(h) => h,
            Err(e) => return Err(e),
        };
        let mut position: usize = HEADER_LEN;
        let mut questions: Vec<DnsQuestion> = Vec::new();
        let mut k: u16 = 0;
        assert(question_views(questions@) =~= Seq::<QuestionView>::empty());
        while k < header.qdcount
            invariant
                buf == bytes@,
                buf.len() == blen,
                parse_header(buf) == Ok::<DnsHeader, DnsError>(header),
                k <= header.qdcount,
                questions@.len() == k,
                position <= buf.len(),
                parse_questions(buf, 12, header.qdcount as nat) == match parse_questions(
                    buf,
                    position as int,
                    (header.qdcount - k) as nat,
                ) {
                    Ok((qs, end)) => Ok::<(Seq<QuestionView>, int), DnsError>(
                        (question_views(questions@) + qs, end),
                    ),
                    Err(e) => Err(e),
                },
            decreases header.qdcount - k,
        {
            let (question, bytes_consumed) = match DnsQuestion::from_bytes(bytes, position) {
                Ok(v) => v,
                Err(e) => return Err(e),
            };
            let ghost pre = question_views(questions@);
            proof {
                let rest = parse_questions(buf, position + bytes_consumed, (header.qdcount - k - 1) as nat);
                if let Ok((qs, end)) = rest {
                    assert(pre + (seq![question@] + qs) =~= pre.push(question@) + qs);
                }
            }
            questions.push(question);
            assert(question_views(questions@) =~= pre.push(questions@.last()@));
            position = position + bytes_consumed;
            k = k + 1;
        }
        let ghost qend = position as int;
        assert(question_views(questions@) + Seq::<QuestionView>::empty() =~= question_views(questions@));
        let mut answers: Vec<DnsRecord> = Vec::new();
        let mut a: u16 = 0;
        assert(record_views(answers@) =~= Seq::<RecordView>::empty());
        while a < header.ancount
            invariant_except_break
                buf == bytes@,
                buf.len() == blen,
                a <= header.ancount,
                position <= buf.len(),
                parse_answers(buf, qend, header.ancount as nat) == record_views(answers@)
                    + parse_answers(buf, position as int, (header.ancount - a) as nat),
            ensures
                parse_answers(buf, qend, header.ancount as nat) == record_views(answers@),
            decreases header.ancount - a,
        {
            match DnsRecord::from_bytes(bytes, position) {
                Ok((record, bytes_consumed)) => {
                    let ghost pre = record_views(answers@);
                    let ghost rest = parse_answers(buf, position + bytes_consumed, (header.ancount - a - 1) as nat);
                    assert(pre + (seq![record@] + rest) =~= pre.push(record@) + rest);
                    answers.push(record);
                    assert(record_views(answers@) =~= pre.push(answers@.last()@));
                    position = position + bytes_consumed;
                    a = a + 1;
                },
                Err(_) => {
                    assert(record_views(answers@) + Seq::<RecordView>::empty() =~= record_views(answers@));
                    break;
                },
            }
        }
        proof {
            if a >= header.ancount {
                assert(record_views(answers@) + Seq::<RecordView>::empty() =~= record_views(answers@));
            }
        }
        Ok(DnsMessage { header, questions, answers })
    }

    /// The self-answered response to a request header and its questions: each
    /// question of type A (or of a type above 1000) is kept as type A class IN and
    /// answered with an A record for 76.76.21.21; the others are dropped.
    pub fn new(request_header: &DnsHeader, questions: Vec<DnsQuestion>) -> (r: DnsMessage)
        requires
            questions@.len() <= 0xFFFF,
        ensures
            r@ == self_response(*request_header, question_views(questions@)),
            r.header.qdcount == r.questions@.len(),
            r.header.ancount == r.answers@.len(),
    {
        proof {
            lemma_response_lengths(question_views(questions@));
        }
        respond_to(request_header, &questions)
    }

    /// The self-answered response to a request; see `new`.
    pub fn new_response_from_request(request: &DnsMessage) -> (r: DnsMessage)
        requires
            request.questions@.len() <= 0xFFFF,
        ensures
            r@ == self_response(request.header, request@.questions),
            r.header.qdcount == r.questions@.len(),
            r.header.ancount == r.answers@.len(),
    {
        proof {
            lemma_response_lengths(request@.questions);
        }
        respond_to(&request.header, &request.questions)
    }

    /// The response used when only the request header could be decoded: one
    /// question for `codecrafters.io` and its A record.
    pub fn new_response_from_request_header(request_header: &DnsHeader) -> (r: DnsMessage)
        ensures
            r.header == response_header(*request_header, 1, 1),
            r@.questions == seq![default_question()],
            r@.answers == seq![a_record(encode_name(DEFAULT_DOMAIN.spec_bytes()), default_address())],
    {
        let dns_questions = vec![DnsQuestion::new()];
        let dns_answers = vec![DnsRecord::default_codecrafters_record()];
        let header = DnsHeader::new(request_header, 1, 1);
        let r = DnsMessage { header, questions: dns_questions, answers: dns_answers };
        assert(r@.questions =~= seq![r.questions@[0]@]);
        assert(r@.answers =~= seq![r.answers@[0]@]);
        r
    }

    /// Encodes the message: header, questions, answers, without name compression.
    pub fn to_bytes(&self) -> (r: BytesMut)
        requires
            message_bytes(self@).len() <= buf_limit(),
        ensures
            buf_contents(r) == message_bytes(self@),
    {
        let mut bytes = self.header.to_bytes();
        put_questions(&mut bytes, &self.questions);
        put_records(&mut bytes, &self.answers);
        bytes
    }

    /// Encodes the query sent upstream: the id, the flags with QR cleared, the
    /// question count, zero for the other counts, then the questions. Answers
    /// are left out.
    pub fn to_forwarded_request_bytes(&self) -> (r: BytesMut)
        requires
            upstream_query_bytes(self@).len() <= buf_limit(),
        ensures
            buf_contents(r) == upstream_query_bytes(self@),
            flag_qr(u16_at(buf_contents(r), 2)) == 0,
    {
        let h = DnsHeader {
            id: self.header.id,
            flags: self.header.flags & 0x7FFF,
            qdcount: self.header.qdcount,
            ancount: 0,
            nscount: 0,
            arcount: 0,
        };
        let mut bytes = h.to_bytes();
        put_questions(&mut bytes, &self.questions);
        proof {
            let f = self.header.flags;
            crate::dns_header::lemma_header_round_trip(h, questions_bytes(self@.questions));
            assert(header_bytes(h) + questions_bytes(self@.questions) =~= buf_contents(bytes));
            assert(((f & 0x7FFF) >> 15u16) & 1 == 0) by (bit_vector);
        }
        bytes
    }
}

/// Questions written one after another: the first one, then the rest.
proof fn lemma_questions_bytes_cons(q: QuestionView, qs: Seq<QuestionView>)
    ensures
        questions_bytes(seq![q] + qs) == question_bytes(q) + questions_bytes(qs),
    decreases qs.len(),
{
    if qs.len() == 0 {
        assert(seq![q] + qs =~= seq![q]);
        assert(seq![q].drop_last() =~= Seq::<QuestionView>::empty());
        assert(question_bytes(q) + Seq::<u8>::empty() =~= question_bytes(q));
        assert(Seq::<u8>::empty() + question_bytes(q) =~= question_bytes(q));
        assert(questions_bytes(seq![q]) == questions_bytes(seq![q].drop_last()) + question_bytes(q));
        assert(questions_bytes(qs) == Seq::<u8>::empty());
    } else {
        let whole = seq![q] + qs;
        assert(whole.drop_last() =~= seq![q] + qs.drop_last());
        assert(whole.last() == qs.last());
        assert(questions_bytes(whole) == questions_bytes(whole.drop_last()) + question_bytes(whole.last()));
        lemma_questions_bytes_cons(q, qs.drop_last());
        assert(question_bytes(q) + questions_bytes(qs.drop_last()) + question_bytes(qs.last())
            =~= question_bytes(q) + (questions_bytes(qs.drop_last()) + question_bytes(qs.last())));
    }
}

/// Records written one after another: the first one, then the rest.
proof fn lemma_records_bytes_cons(r: RecordView, rs: Seq<RecordView>)
    ensures
        records_bytes(seq![r] + rs) == record_bytes(r) + records_bytes(rs),
    decreases rs.len(),
{
    if rs.len() == 0 {
        assert(seq![r] + rs =~= seq![r]);
        assert(seq![r].drop_last() =~= Seq::<RecordView>::empty());
        assert(record_bytes(r) + Seq::<u8>::empty() =~= record_bytes(r));
        assert(Seq::<u8>::empty() + record_bytes(r) =~= record_bytes(r));
        assert(records_bytes(seq![r]) == records_bytes(seq![r].drop_last()) + record_bytes(r));
        assert(records_bytes(rs) == Seq::<u8>::empty());
    } else {
        let whole = seq![r] + rs;
        assert(whole.drop_last() =~= seq![r] + rs.drop_last());
        assert(whole.last() == rs.last());
        assert(records_bytes(whole) == records_bytes(whole.drop_last()) + record_bytes(whole.last()));
        lemma_records_bytes_cons(r, rs.drop_last());
        assert(record_bytes(r) + records_bytes(rs.drop_last()) + record_bytes(rs.last())
            =~= record_bytes(r) + (records_bytes(rs.drop_last()) + record_bytes(rs.last())));
    }
}

/// Uncompressed, well-formed questions parse back from their wire form.
proof fn lemma_questions_round_trip(buf: Seq<u8>, p: int, qs: Seq<QuestionView>)
    requires
        forall|i: int| 0 <= i < qs.len() ==> plain_name(#[trigger] qs[i].name),
        occurs_at(buf, p, questions_bytes(qs)),
    ensures
        parse_questions(buf, p, qs.len()) == Ok::<(Seq<QuestionView>, int), DnsError>(
            (qs, p + questions_bytes(qs).len()),
        ),
    decreases qs.len(),
{
    if qs.len() > 0 {
        let q = qs[0];
        let rest = qs.drop_first();
        assert(qs =~= seq![q] + rest);
        lemma_questions_bytes_cons(q, rest);
        lemma_occurs_split(buf, p, question_bytes(q), questions_bytes(rest));
        lemma_question_round_trip(buf, p, q);
        assert forall|i: int| 0 <= i < rest.len() implies plain_name(#[trigger] rest[i].name) by {
            assert(rest[i] == qs[i + 1]);
        }
        lemma_questions_round_trip(buf, p + question_bytes(q).len(), rest);
        assert((qs.len() - 1) as nat == rest.len());
    } else {
        assert(qs =~= Seq::<QuestionView>::empty());
    }
}

/// Uncompressed, well-formed records with 16-bit data lengths parse back from their wire form.
proof fn lemma_answers_round_trip(buf: Seq<u8>, p: int, rs: Seq<RecordView>)
    requires
        forall|i: int|
            0 <= i < rs.len() ==> plain_name(#[trigger] rs[i].name) && rs[i].rdata.len() <= 0xFFFF,
        occurs_at(buf, p, records_bytes(rs)),
    ensures
        parse_answers(buf, p, rs.len()) == rs,
    decreases rs.len(),
{
    if rs.len() > 0 {
        let r = rs[0];
        let rest = rs.drop_first();
        assert(rs =~= seq![r] + rest);
        lemma_records_bytes_cons(r, rest);
        lemma_occurs_split(buf, p, record_bytes(r), records_bytes(rest));
        lemma_record_round_trip(buf, p, r);
        assert forall|i: int| 0 <= i < rest.len() implies plain_name(#[trigger] rest[i].name)
            && rest[i].rdata.len() <= 0xFFFF by {
            assert(rest[i] == rs[i + 1]);
        }
        lemma_answers_round_trip(buf, p + record_bytes(r).len(), rest);
        assert((rs.len() - 1) as nat == rest.len());
    } else {
        assert(rs =~= Seq::<RecordView>::empty());
    }
}

/// Decoding the wire form of a message gives the message back, when its counts
/// match its sections, its names are uncompressed and well formed, and the
/// data of each answer fits a 16-bit length (as that of an A record does).
pub proof fn lemma_message_round_trip(m: MessageView)
    requires
        m.header.qdcount == m.questions.len(),
        m.header.ancount == m.answers.len(),
        forall|i: int| 0 <= i < m.questions.len() ==> plain_name(#[trigger] m.questions[i].name),
        forall|i: int|
            0 <= i < m.answers.len() ==> plain_name(#[trigger] m.answers[i].name)
                && m.answers[i].rdata.len() <= 0xFFFF,
    ensures
        parse_message(message_bytes(m)) == Ok::<MessageView, DnsError>(m),
{
    let hb = header_bytes(m.header);
    let qb = questions_bytes(m.questions);
    let rb = records_bytes(m.answers);
    let buf = message_bytes(m);
    assert(buf =~= hb + (qb + rb));
    crate::dns_header::lemma_header_round_trip(m.header, qb + rb);
    assert(buf.subrange(0, buf.len() as int) =~= buf);
    assert(occurs_at(buf, 0, buf));
    lemma_occurs_split(buf, 0, hb + qb, rb);
    lemma_occurs_split(buf, 0, hb, qb);
    lemma_questions_round_trip(buf, 12, m.questions);
    lemma_answers_round_trip(buf, 12 + qb.len() as int, m.answers);
}

} // verus!
