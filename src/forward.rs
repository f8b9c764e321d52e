//! The decisions of upstream forwarding. The caller owns the socket: it sends
//! each query that the forwarder hands out, and gives back the reply datagram,
//! or nothing when sending or receiving failed.
use crate::dns_header::DnsHeader;
use crate::dns_message::{parse_message, question_views, record_views, DnsMessage, MessageView};
use crate::dns_question::{DnsQuestion, QuestionView};
use crate::dns_record::RecordView;
use crate::error::DnsError;
use vstd::prelude::*;

verus! {

/// Seconds that each upstream receive may wait.
pub const UPSTREAM_TIMEOUT_SECS: u64 = 5;

/// Size of the buffer that upstream replies are received into.
pub const MAX_DATAGRAM: usize = 512;

/// Why forwarding a request failed.
#[derive(Clone, Copy, Debug, PartialEq, Eq, Structural)]
pub enum ForwardError {
    /// The local upstream socket could not be bound.
    BindFailed,
    /// The read timeout could not be set on the upstream socket.
    TimeoutSetupFailed,
    /// The query could not be sent upstream.
    SendFailed,
    /// No reply came back from upstream.
    RecvFailed,
    /// Split forwarding collected no answer at all.
    NoUpstreamAnswers,
    /// The upstream reply could not be decoded.
    Decode(DnsError),
}

/// The header of the combined response: the request id, QR set, the request's
/// question count, and (as yet) no answers.
pub open spec fn combined_header(req: DnsHeader) -> DnsHeader {
    DnsHeader { id: req.id, flags: 0x8000, qdcount: req.qdcount, ancount: 0, nscount: 0, arcount: 0 }
}

/// The single-question query sent upstream for question `q` of a request with header `req`.
pub open spec fn single_query(req: DnsHeader, q: QuestionView) -> MessageView {
    MessageView {
        header: DnsHeader {
            id: req.id,
            flags: req.flags & 0x7FFF,
            qdcount: 1,
            ancount: 0,
            nscount: 0,
            arcount: 0,
        },
        questions: seq![q],
        answers: Seq::empty(),
    }
}

/// The answers that one upstream reply contributes: those of the decoded reply,
/// or none when there was no reply or it does not decode.
pub open spec fn reply_answers(reply: Option<Seq<u8>>) -> Seq<RecordView> {
    match reply {
        Some(b) => match parse_message(b) {
            Ok(m) => m.answers,
            Err(_) => Seq::empty(),
        },
        None => Seq::empty(),
    }
}

/// The answers collected from the replies to successive questions, in order.
pub open spec fn collected_answers(replies: Seq<Option<Seq<u8>>>) -> Seq<RecordView>
    decreases replies.len(),
{
    if replies.len() == 0 {
        Seq::empty()
    } else {
        collected_answers(replies.drop_last()) + reply_answers(replies.last())
    }
}

/// The outcome of split forwarding of a request, given the reply (or its
/// absence) for each question: the request's questions with every answer
/// collected, or `NoUpstreamAnswers` when there is none.
pub open spec fn split_outcome(req: MessageView, replies: Seq<Option<Seq<u8>>>) -> Result<
    MessageView,
    ForwardError,
> {
    let answers = collected_answers(replies);
    if answers.len() == 0 {
        Err(ForwardError::NoUpstreamAnswers)
    } else {
        Ok(
            MessageView {
                header: DnsHeader {
                    ancount: (answers.len() % 0x1_0000) as u16,
                    ..combined_header(req.header)
                },
                questions: req.questions,
                answers,
            },
        )
    }
}

/// Split forwarding keeps the request's question section, and the combined
/// answer count is the number of answers collected (whenever that fits 16 bits).
pub proof fn lemma_split_counts(req: MessageView, replies: Seq<Option<Seq<u8>>>)
    ensures
        split_outcome(req, replies) matches Ok(m) ==> m.questions.len() == req.questions.len(),
        split_outcome(req, replies) matches Ok(m) ==> m.header.qdcount == req.header.qdcount,
        split_outcome(req, replies) matches Ok(m) ==> (m.answers.len() <= 0xFFFF ==> m.header.ancount
            == m.answers.len()),
{
}

/// The outcome of single-question forwarding, given the reply datagram: the
/// decoded reply carrying the request's id, or the decode error.
pub open spec fn single_outcome(req_id: u16, reply: Seq<u8>) -> Result<MessageView, ForwardError> {
    match parse_message(reply) {
        Ok(m) => Ok(MessageView { header: DnsHeader { id: req_id, ..m.header }, ..m }),
        Err(e) => Err(ForwardError::Decode(e)),
    }
}

/// Whether a request is forwarded one question at a time.
pub fn needs_split(request: &DnsMessage) -> (r: bool)
    ensures
        r == (request.questions@.len() > 1),
{
    request.questions.len() > 1
}

/// Finishes single-question forwarding with the reply datagram.
pub fn accept_single_reply(request: &DnsMessage, reply: &[u8]) -> (r: Result<DnsMessage, ForwardError>)
    ensures
        match r {
            Ok(m) => single_outcome(request.header.id, reply@) == Ok::<MessageView, ForwardError>(m@),
            Err(e) => single_outcome(request.header.id, reply@) == Err::<MessageView, ForwardError>(e),
        },
{
    match DnsMessage::from_bytes(reply) {
        Ok(mut response) => {
            response.header.id = request.header.id;
            Ok(response)
        },
        Err(e) => Err(ForwardError::Decode(e)),
    }
}

/// Copies a question list, keeping every value.
fn copy_questions(questions: &Vec<DnsQuestion>) -> (r: Vec<DnsQuestion>)
    ensures
        question_views(r@) == question_views(questions@),
{
    let mut out: Vec<DnsQuestion> = Vec::new();
    let mut i: usize = 0;
    while i < questions.len()
        invariant
            i <= questions@.len(),
            out@.len() == i,
            question_views(out@) == question_views(questions@).take(i as int),
        decreases questions@.len() - i,
    {
        out.push(questions[i].duplicate());
        assert(question_views(out@) =~= question_views(questions@).take(i + 1));
        i = i + 1;
    }
    assert(question_views(questions@).take(i as int) =~= question_views(questions@));
    out
}

/// Split-mode forwarding in progress: the combined response being assembled
/// and the index of the next question to send.
pub struct SplitForwarder {
    /// The request's flags, from which each sub-query's flags are taken.
    pub request_flags: u16,
    /// The combined response: the request's questions and the answers so far.
    pub combined: DnsMessage,
    /// The next question to send upstream.
    pub next: usize,
    /// The request as it was handed to `start`.
    pub request: Ghost<MessageView>,
    /// The outcome of each question sent so far.
    pub replies: Ghost<Seq<Option<Seq<u8>>>>,
}

impl SplitForwarder {
    /// The forwarder's invariant: one recorded outcome per question sent, the
    /// answers collected from those outcomes, and the template's header and
    /// questions untouched.
    pub open spec fn wf(&self) -> bool {
        &&& self.next <= self.combined.questions@.len()
        &&& self.replies@.len() == self.next
        &&& self.combined@.answers == collected_answers(self.replies@)
        &&& self.combined@.questions == self.request@.questions
        &&& self.combined.header == combined_header(self.request@.header)
    }

    /// Starts split forwarding of `request`: the combined response holds the
    /// request's id, QR set, its question count and questions, and no answers.
    pub fn start(request: &DnsMessage) -> (r: SplitForwarder)
        ensures
            r.wf(),
            r.next == 0,
            r.request@ == request@,
            r.replies@.len() == 0,
            r.request_flags == request.header.flags,
            r.combined@ == (MessageView {
                header: combined_header(request.header),
                questions: request@.questions,
                answers: Seq::empty(),
            }),
    {
        let combined = DnsMessage {
            header: DnsHeader {
                id: request.header.id,
                flags: 0x8000,
                qdcount: request.header.qdcount,
                ancount: 0,
                nscount: 0,
                arcount: 0,
            },
            questions: copy_questions(&request.questions),
            answers: Vec::new(),
        };
        assert(combined@.answers =~= Seq::<RecordView>::empty());
        SplitForwarder {
            request_flags: request.header.flags,
            combined,
            next: 0,
            request: Ghost(request@),
            replies: Ghost(Seq::empty()),
        }
    }

    /// The single-question query for the next question, or `None` once every
    /// question has been sent.
    pub fn next_query(&self) -> (r: Option<DnsMessage>)
        requires
            self.wf(),
        ensures
            r is None <==> self.next == self.combined.questions@.len(),
            r matches Some(m) ==> m@ == single_query(
                DnsHeader { flags: self.request_flags, ..self.combined.header },
                self.combined@.questions[self.next as int],
            ),
    {
        if self.next >= self.combined.questions.len() {
            return None;
        }
        let q = self.combined.questions[self.next].duplicate();
        let m = DnsMessage {
            header: DnsHeader {
                id: self.combined.header.id,
                flags: self.request_flags & 0x7FFF,
                qdcount: 1,
                ancount: 0,
                nscount: 0,
                arcount: 0,
            },
            questions: vec![q],
            answers: Vec::new(),
        };
        assert(m@.questions =~= seq![self.combined@.questions[self.next as int]]);
        assert(m@.answers =~= Seq::<RecordView>::empty());
        Some(m)
    }

    /// Takes the outcome of the current question: the reply datagram, or `None`
    /// when sending or receiving failed. The answers of a reply that decodes are
    /// appended; anything else is skipped. Moves on to the next question.
    pub fn on_reply(&mut self, reply: Option<&[u8]>)
        requires
            old(self).wf(),
            old(self).next < old(self).combined.questions@.len(),
        ensures
            final(self).wf(),
            final(self).next == old(self).next + 1,
            final(self).request_flags == old(self).request_flags,
            final(self).request == old(self).request,
            final(self).replies@ == old(self).replies@.push(
                match reply {
                    Some(b) => Some(b@),
                    None => None,
                },
            ),
            final(self).combined.header == old(self).combined.header,
            final(self).combined@.questions == old(self).combined@.questions,
            final(self).combined@.answers == old(self).combined@.answers + reply_answers(
                match reply {
                    Some(b) => Some(b@),
                    None => None,
                },
            ),
    {
        match reply {
            Some(bytes) => {
                match DnsMessage::from_bytes(bytes) {
                    Ok(response) => {
                        let mut more = response.answers;
                        let ghost pre = self.combined.answers@;
                        let ghost add = more@;
                        self.combined.answers.append(&mut more);
                        assert(record_views(self.combined.answers@) =~= record_views(pre)
                            + record_views(add));
                    },
                    Err(_) => {
                        assert(self.combined@.answers + Seq::<RecordView>::empty() =~= self.combined@.answers);
                    },
                }
            },
            None => {
                assert(self.combined@.answers + Seq::<RecordView>::empty() =~= self.combined@.answers);
            },
        }
        let ghost outcome = match reply {
            Some(b) => Some(b@),
            None => None,
        };
        proof {
            assert(self.replies@.push(outcome).drop_last() =~= self.replies@);
        }
        self.replies = Ghost(self.replies@.push(outcome));
        let total = self.combined.questions.len();
        assert(self.next < total);
        self.next = self.next + 1;
    }

    /// Ends split forwarding: the combined response with its answer count set,
    /// or `NoUpstreamAnswers` when no answer was collected.
    pub fn finish(self) -> (r: Result<DnsMessage, ForwardError>)
        requires
            self.wf(),
        ensures
            match r {
                Ok(m) => split_outcome(self.request@, self.replies@) == Ok::<MessageView, ForwardError>(m@),
                Err(e) => split_outcome(self.request@, self.replies@) == Err::<MessageView, ForwardError>(e),
            },
            r is Err <==> self.combined.answers@.len() == 0,
            r matches Err(e) ==> e == ForwardError::NoUpstreamAnswers,
            r matches Ok(m) ==> m@ == (MessageView {
                header: DnsHeader {
                    ancount: (self.combined.answers@.len() % 0x1_0000) as u16,
                    ..self.combined.header
                },
                ..self.combined@
            }),
            r matches Ok(m) ==> m.questions@.len() == self.combined.questions@.len(),
            r matches Ok(m) ==> m.answers@.len() <= 0xFFFF ==> m.header.ancount == m.answers@.len(),
    {
        let mut combined = self.combined;
        if combined.answers.len() == 0 {
            return Err(ForwardError::NoUpstreamAnswers);
        }
        combined.header.ancount = (combined.answers.len() % 0x1_0000) as u16;
        Ok(combined)
    }
}

} // verus!
