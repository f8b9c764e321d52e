//! One entry of the question section.
use crate::dns_name::{
    encode_labels, encode_name, flush_label, lemma_occurs_split, lemma_plain_name_decodes,
    lemma_walk_extent, name_text, name_walk, occurs_at, parse_name, plain_name, text_from, DOT,
    MAX_JUMPS,
};
use crate::error::DnsError;
use crate::wire::{
    be16, buf_contents, buf_extend, buf_limit, buf_new, buf_put_u16, lemma_u16_round_trip, read_u16,
    u16_at,
};
use bytes::BytesMut;
use vstd::prelude::*;
use vstd::slice::slice_subrange;
use vstd::string::{StringExecFns, StringSliceAdditionalSpecFns};
use vstd::utf8::{decode_utf8, valid_utf8};

verus! {

/// A question: an uncompressed wire-form name, a record type and a class.
#[derive(Clone, Debug)]
pub struct DnsQuestion {
    pub name: Vec<u8>,
    pub record_type: u16,
    pub class: u16,
}

/// The value of a question.
pub struct QuestionView {
    pub name: Seq<u8>,
    pub record_type: u16,
    pub class: u16,
}

impl View for DnsQuestion {
    type V = QuestionView;

    open spec fn view(&self) -> QuestionView {
        QuestionView { name: self.name@, record_type: self.record_type, class: self.class }
    }
}

/// The wire form of a question: the name, then type and class.
pub open spec fn question_bytes(q: QuestionView) -> Seq<u8> {
    q.name + be16(q.record_type) + be16(q.class)
}

/// Parsing a question at `start`: its value and the bytes consumed.
pub open spec fn parse_question(buf: Seq<u8>, start: int) -> Result<(QuestionView, int), DnsError> {
    if buf.len() <= start {
        Err(DnsError::BufferTruncated)
    } else {
        match parse_name(buf, start) {
            Err(e) => Err(e),
            Ok((n, c)) => {
                let p = start + c;
                if buf.len() < p + 4 {
                    Err(DnsError::BufferTruncated)
                } else {
                    Ok(
                        (
                            QuestionView {
                                name: n,
                                record_type: u16_at(buf, p),
                                class: u16_at(buf, p + 2),
                            },
                            c + 4,
                        ),
                    )
                }
            },
        }
    }
}

/// Relies on `std::str::from_utf8`: it succeeds exactly on valid UTF-8, and the
/// string it returns holds exactly the given bytes.
#[verifier::external_body]
fn utf8_str(b: &[u8]) -> (r: Option<&str>)
    ensures
        r is Some <==> valid_utf8(b@),
        r matches Some(s) ==> s.spec_bytes() == b@,
{
    std::str::from_utf8(b).ok()
}

/// Decodes the name at `start_pos`, following compression pointers, into its
/// uncompressed form; also returns how many bytes the name occupies at `start_pos`.
pub fn parse_domain_name(bytes: &[u8], start_pos: usize) -> (r: Result<(Vec<u8>, usize), DnsError>)
    ensures
        match r {
            Ok((n, c)) => parse_name(bytes@, start_pos as int) == Ok::<(Seq<u8>, int), DnsError>(
                (n@, c as int),
            ),
            Err(e) => parse_name(bytes@, start_pos as int) == Err::<(Seq<u8>, int), DnsError>(e),
        },
        r matches Ok((n, c)) ==> 1 <= c && start_pos + c <= bytes@.len(),
{
    let ghost buf = bytes@;
    let ghost start = start_pos as int;
    let mut position = start_pos;
    let mut name: Vec<u8> = Vec::new();
    let mut jumps: usize = 0;
    let mut first_jump_pos: usize = 0;
    let mut is_compressed = false;
    proof {
        lemma_walk_extent(buf, start, MAX_JUMPS as nat);
    }
    loop
        invariant
            buf == bytes@,
            start == start_pos,
            jumps <= MAX_JUMPS,
            is_compressed ==> start <= first_jump_pos && first_jump_pos + 2 <= buf.len(),
            !is_compressed ==> start <= position && name@.len() == position - start,
            parse_name(buf, start) == match name_walk(buf, position as int, (MAX_JUMPS - jumps) as nat) {
                Ok((n, l)) => Ok::<(Seq<u8>, int), DnsError>(
                    (
                        name@ + n,
                        if is_compressed {
                            first_jump_pos - start + 2
                        } else {
                            position - start + l
                        },
                    ),
                ),
                Err(e) => Err(e),
            },
        decreases MAX_JUMPS - jumps, bytes@.len() - position,
    {
        if position >= bytes.len() {
            return Err(DnsError::BufferTruncated);
        }
        let length = bytes[position];
        let ghost pre = name@;
        if length == 0 {
            name.push(0);
            assert(name@ =~= pre + seq![0u8]);
            let consumed = if !is_compressed {
                position - start_pos + 1
            } else {
                first_jump_pos - start_pos + 2
            };
            return Ok((name, consumed));
        }
        if length >= 0xC0 {
            if position + 1 >= bytes.len() {
                return Err(DnsError::BufferTruncated);
            }
            if !is_compressed {
                is_compressed = true;
                first_jump_pos = position;
            }
            let offset = ((length - 0xC0) as usize) * 256 + (bytes[position + 1] as usize);
            if jumps >= MAX_JUMPS {
                return Err(DnsError::TooManyJumps);
            }
            position = offset;
            jumps += 1;
            continue;
        }
        let len = length as usize;
        if len > bytes.len() - position - 1 {
            return Err(DnsError::BufferTruncated);
        }
        let ghost label = seq![length] + buf.subrange(position + 1, position + 1 + len);
        name.push(length);
        name.extend_from_slice(slice_subrange(bytes, position + 1, position + 1 + len));
        assert(name@ =~= pre + label);
        proof {
            let next = name_walk(buf, position + 1 + len, (MAX_JUMPS - jumps) as nat);
            if let Ok((n, l)) = next {
                assert(pre + (label + n) =~= (pre + label) + n);
            }
        }
        position = position + 1 + len;
    }
}

/// The domain that the fallback question asks about.
pub const DEFAULT_DOMAIN: &'static str = "codecrafters.io";

/// Encodes the dotted text `d`; see `encode_name`.
fn encode_dotted(d: &[u8]) -> (r: Vec<u8>)
    ensures
        r@ == encode_name(d@),
{
    let mut encoded: Vec<u8> = Vec::new();
    let mut start: usize = 0;
    let mut i: usize = 0;
    assert(d@.subrange(0, d@.len() as int) =~= d@);
    assert(d@.subrange(0, 0) =~= Seq::<u8>::empty());
    assert(encoded@ + encode_labels(d@, Seq::empty()) =~= encode_labels(d@, Seq::empty()));
    while i < d.len()
        invariant
            start <= i <= d@.len(),
            encoded@ + encode_labels(d@.subrange(i as int, d@.len() as int), d@.subrange(start as int, i as int))
                == encode_labels(d@, Seq::empty()),
        decreases d@.len() - i,
    {
        let ghost rest = d@.subrange(i as int, d@.len() as int);
        let ghost cur = d@.subrange(start as int, i as int);
        assert(rest.drop_first() =~= d@.subrange(i + 1, d@.len() as int));
        if d[i] == DOT {
            let ghost pre = encoded@;
            if i > start {
                encoded.push(((i - start) % 256) as u8);
                encoded.extend_from_slice(slice_subrange(d, start, i));
            }
            assert(encoded@ =~= pre + flush_label(cur));
            assert(pre + (flush_label(cur) + encode_labels(rest.drop_first(), Seq::empty())) =~= encoded@
                + encode_labels(rest.drop_first(), Seq::empty()));
            start = i + 1;
            assert(d@.subrange(start as int, start as int) =~= Seq::<u8>::empty());
        } else {
            assert(cur.push(d@[i as int]) =~= d@.subrange(start as int, i + 1));
        }
        i = i + 1;
    }
    let ghost pre = encoded@;
    let ghost cur = d@.subrange(start as int, i as int);
    assert(d@.subrange(i as int, d@.len() as int) =~= Seq::<u8>::empty());
    if i > start {
        encoded.push(((i - start) % 256) as u8);
        encoded.extend_from_slice(slice_subrange(d, start, i));
    }
    assert(encoded@ =~= pre + flush_label(cur));
    encoded.push(0);
    encoded
}

impl DnsQuestion {
    /// The fallback question: `codecrafters.io`, type A, class IN.
    pub fn new() -> (r: DnsQuestion)
        ensures
            r@ == (QuestionView {
                name: encode_name(DEFAULT_DOMAIN.spec_bytes()),
                record_type: 1,
                class: 1,
            }),
    {
        DnsQuestion { name: Self::encode_domain_name(DEFAULT_DOMAIN), record_type: 1, class: 1 }
    }

    /// Encodes dotted text as length-prefixed labels ended by a zero byte; empty
    /// labels are skipped.
    pub fn encode_domain_name(domain: &str) -> (r: Vec<u8>)
        ensures
            r@ == encode_name(domain.spec_bytes()),
    {
        encode_dotted(domain.as_bytes())
    }

    /// Parses a question at `start_pos`: a name, then type and class. Returns the
    /// question and the number of bytes it occupies.
    pub fn from_bytes(bytes: &[u8], start_pos: usize) -> (r: Result<(DnsQuestion, usize), DnsError>)
        ensures
            match r {
                Ok((q, c)) => parse_question(bytes@, start_pos as int) == Ok::<
                    (QuestionView, int),
                    DnsError,
                >((q@, c as int)),
                Err(e) => parse_question(bytes@, start_pos as int) == Err::<(QuestionView, int), DnsError>(e),
            },
            r matches Ok((q, c)) ==> start_pos + c <= bytes@.len(),
    {
        if bytes.len() <= start_pos {
            return Err(DnsError::BufferTruncated);
        }
        let (name, bytes_consumed) = match parse_domain_name(bytes, start_pos) {
            Ok(v) => v,
            Err(e) => return Err(e),
        };
        let next_pos = start_pos + bytes_consumed;
        if bytes.len() - next_pos < 4 {
            return Err(DnsError::BufferTruncated);
        }
        let record_type = read_u16(bytes, next_pos);
        let class = read_u16(bytes, next_pos + 2);
        Ok((DnsQuestion { name, record_type, class }, bytes_consumed + 4))
    }

    /// Renders the stored name as dotted text. Fails with `InvalidName` when a
    /// label runs past the end of the name or is not valid UTF-8.
    pub fn decode_name(&self) -> (r: Result<String, DnsError>)
        ensures
            match r {
                Ok(s) => name_text(self.name@) == Ok::<Seq<char>, DnsError>(s@),
                Err(e) => name_text(self.name@) == Err::<Seq<char>, DnsError>(e),
            },
    {
        broadcast use vstd::utf8::group_utf8_lib;

        let mut result = String::new();
        let mut i: usize = 0;
        let ghost n = self.name@;
        while i < self.name.len()
            invariant
                n == self.name@,
                i <= n.len(),
                text_from(n, i as int, result@) == name_text(n),
            ensures
                name_text(n) == Ok::<Seq<char>, DnsError>(result@),
            decreases n.len() - i,
        {
            let length = self.name[i] as usize;
            let ghost acc = result@;
            if length == 0 {
                break;
            }
            if !result.as_str().is_empty() {
                proof {
                    reveal_strlit(".");
                }
                result.append(".");
                assert(result@ =~= acc.push('.'));
            }
            if length > self.name.len() - i - 1 {
                return Err(DnsError::InvalidName);
            }
            match utf8_str(slice_subrange(self.name.as_slice(), i + 1, i + 1 + length)) {
                Some(label) => {
                    result.append(label);
                    proof {
                        let b = n.subrange(i + 1, i + 1 + length);
                        vstd::utf8::encode_utf8_decode_utf8(label@);
                        assert(label@ == decode_utf8(b));
                    }
                },
                None => return Err(DnsError::InvalidName),
            }
            i = i + 1 + length;
        }
        Ok(result)
    }

    /// Writes the name, then type and class, into a new buffer.
    pub fn to_bytes(&self) -> (r: BytesMut)
        requires
            self.name@.len() + 4 <= buf_limit(),
        ensures
            buf_contents(r) == question_bytes(self@),
    {
        let mut bytes = buf_new();
        buf_extend(&mut bytes, self.name.as_slice());
        buf_put_u16(&mut bytes, self.record_type);
        buf_put_u16(&mut bytes, self.class);
        bytes
    }

    /// A copy of the question with the same value.
    pub fn duplicate(&self) -> (r: DnsQuestion)
        ensures
            r@ == self@,
    {
        DnsQuestion { name: self.name.clone(), record_type: self.record_type, class: self.class }
    }
}

/// A question whose name is uncompressed and well formed parses back from its
/// wire form, wherever that stands.
pub proof fn lemma_question_round_trip(buf: Seq<u8>, p: int, q: QuestionView)
    requires
        plain_name(q.name),
        occurs_at(buf, p, question_bytes(q)),
    ensures
        parse_question(buf, p) == Ok::<(QuestionView, int), DnsError>(
            (q, question_bytes(q).len() as int),
        ),
{
    let n = q.name;
    lemma_occurs_split(buf, p, n + be16(q.record_type), be16(q.class));
    lemma_occurs_split(buf, p, n, be16(q.record_type));
    lemma_plain_name_decodes(buf, p, n, MAX_JUMPS as nat);
    lemma_u16_round_trip(buf, p + n.len(), q.record_type);
    lemma_u16_round_trip(buf, p + n.len() + 2, q.class);
}

} // verus!
