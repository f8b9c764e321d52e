//! One resource record of the answer section.
use crate::dns_name::{
    encode_name, lemma_occurs_split, lemma_plain_name_decodes, occurs_at, parse_name, plain_name,
    MAX_JUMPS,
};
use crate::dns_question::{parse_domain_name, DnsQuestion, DEFAULT_DOMAIN};
use crate::error::DnsError;
use crate::wire::{
    be16, be32, buf_contents, buf_extend, buf_limit, buf_new, buf_put_u16, buf_put_u32,
    lemma_u16_round_trip, lemma_u32_round_trip, read_u16, read_u32, u16_at, u32_at,
};
use bytes::BytesMut;
use vstd::prelude::*;
use vstd::slice::{slice_subrange, slice_to_vec};
use vstd::string::StringSliceAdditionalSpecFns;

verus! {

/// Record type A: an IPv4 address.
pub const TYPE_A: u16 = 1;

/// Class IN: the Internet.
pub const CLASS_IN: u16 = 1;

/// The time-to-live given to synthesized answers, in seconds.
pub const DEFAULT_TTL: u32 = 60;

/// A resource record: an uncompressed wire-form name, type, class, time-to-live and data.
#[derive(Clone, Debug)]
pub struct DnsRecord {
    pub name: Vec<u8>,
    pub record_type: u16,
    pub class: u16,
    pub ttl: u32,
    pub rdata: Vec<u8>,
}

/// The value of a record.
pub struct RecordView {
    pub name: Seq<u8>,
    pub record_type: u16,
    pub class: u16,
    pub ttl: u32,
    pub rdata: Seq<u8>,
}

impl View for DnsRecord {
    type V = RecordView;

    open spec fn view(&self) -> RecordView {
        RecordView {
            name: self.name@,
            record_type: self.record_type,
            class: self.class,
            ttl: self.ttl,
            rdata: self.rdata@,
        }
    }
}

/// The address that synthesized A records answer with: 76.76.21.21.
pub open spec fn default_address() -> Seq<u8> {
    seq![76u8, 76u8, 21u8, 21u8]
}

/// The A record for `name` with the given four address bytes.
pub open spec fn a_record(name: Seq<u8>, address: Seq<u8>) -> RecordView {
    RecordView { name, record_type: TYPE_A, class: CLASS_IN, ttl: DEFAULT_TTL, rdata: address }
}

/// The wire form of a record; the data length is written as 16 bits.
pub open spec fn record_bytes(r: RecordView) -> Seq<u8> {
    r.name + be16(r.record_type) + be16(r.class) + be32(r.ttl) + be16(
        (r.rdata.len() % 0x1_0000) as u16,
    ) + r.rdata
}

/// Parsing a record at `start`: its value and the bytes consumed.
pub open spec fn parse_record(buf: Seq<u8>, start: int) -> Result<(RecordView, int), DnsError> {
    if buf.len() <= start {
        Err(DnsError::BufferTruncated)
    } else {
        match parse_name(buf, start) {
            Err(e) => Err(e),
            Ok((n, c)) => {
                let p = start + c;
                if buf.len() < p + 10 {
                    Err(DnsError::BufferTruncated)
                } else {
                    let rdlength = u16_at(buf, p + 8) as int;
                    if buf.len() < p + 10 + rdlength {
                        Err(DnsError::BufferTruncated)
                    } else {
                        Ok(
                            (
                                RecordView {
                                    name: n,
                                    record_type: u16_at(buf, p),
                                    class: u16_at(buf, p + 2),
                                    ttl: u32_at(buf, p + 4),
                                    rdata: buf.subrange(p + 10, p + 10 + rdlength),
                                },
                                c + 10 + rdlength,
                            ),
                        )
                    }
                }
            },
        }
    }
}

/// The address of synthesized answers.
pub fn default_ipv4() -> (r: [u8; 4])
    ensures
        r@ == default_address(),
{
    let r: [u8; 4] = [76, 76, 21, 21];
    assert(r@ =~= default_address());
    r
}

impl DnsRecord {
    /// An A record for `domain_name` (already in wire form) holding the address's
    /// four octets, class IN, time-to-live 60.
    pub fn new(domain_name: Vec<u8>, ipv4: [u8; 4]) -> (r: DnsRecord)
        ensures
            r@ == a_record(domain_name@, ipv4@),
    {
        let ip_bytes: Vec<u8> = vec![ipv4[0], ipv4[1], ipv4[2], ipv4[3]];
        assert(ip_bytes@ =~= ipv4@);
        DnsRecord {
            name: domain_name,
            record_type: TYPE_A,
            class: CLASS_IN,
            ttl: DEFAULT_TTL,
            rdata: ip_bytes,
        }
    }

    /// Writes name, type, class, time-to-live, data length and data into a new buffer.
    pub fn to_bytes(&self) -> (r: BytesMut)
        requires
            self.name@.len() + 10 + self.rdata@.len() <= buf_limit(),
        ensures
            buf_contents(r) == record_bytes(self@),
    {
        let mut bytes = buf_new();
        buf_extend(&mut bytes, self.name.as_slice());
        buf_put_u16(&mut bytes, self.record_type);
        buf_put_u16(&mut bytes, self.class);
        buf_put_u32(&mut bytes, self.ttl);
        buf_put_u16(&mut bytes, (self.rdata.len() % 0x1_0000) as u16);
        buf_extend(&mut bytes, self.rdata.as_slice());
        bytes
    }

    /// Parses a record at `start_pos`. Returns the record and the number of bytes it occupies.
    pub fn from_bytes(bytes: &[u8], start_pos: usize) -> (r: Result<(DnsRecord, usize), DnsError>)
        ensures
            match r {
                Ok((rec, c)) => parse_record(bytes@, start_pos as int) == Ok::<
                    (RecordView, int),
                    DnsError,
                >((rec@, c as int)),
                Err(e) => parse_record(bytes@, start_pos as int) == Err::<(RecordView, int), DnsError>(e),
            },
            r matches Ok((rec, c)) ==> start_pos + c <= bytes@.len(),
    {
        if bytes.len() <= start_pos {
            return Err(DnsError::BufferTruncated);
        }
        let (name, name_bytes_consumed) = match parse_domain_name(bytes, start_pos) {
            Ok(v) => v,
            Err(e) => return Err(e),
        };
        let record_start = start_pos + name_bytes_consumed;
        if bytes.len() - record_start < 10 {
            return Err(DnsError::BufferTruncated);
        }
        let record_type = read_u16(bytes, record_start);
        let class = read_u16(bytes, record_start + 2);
        let ttl = read_u32(bytes, record_start + 4);
        let rdlength = read_u16(bytes, record_start + 8) as usize;
        if bytes.len() - record_start - 10 < rdlength {
            return Err(DnsError::BufferTruncated);
        }
        let rdata = slice_to_vec(slice_subrange(bytes, record_start + 10, record_start + 10 + rdlength));
        let total_consumed = name_bytes_consumed + 10 + rdlength;
        Ok((DnsRecord { name, record_type, class, ttl, rdata }, total_consumed))
    }

    /// The fallback answer: `codecrafters.io` as an A record for 76.76.21.21.
    pub fn default_codecrafters_record() -> (r: DnsRecord)
        ensures
            r@ == a_record(encode_name(DEFAULT_DOMAIN.spec_bytes()), default_address()),
    {
        let domain = DnsQuestion::encode_domain_name(DEFAULT_DOMAIN);
        Self::new(domain, default_ipv4())
    }

    /// A copy of the record with the same value.
    pub fn duplicate(&self) -> (r: DnsRecord)
        ensures
            r@ == self@,
    {
        DnsRecord {
            name: self.name.clone(),
            record_type: self.record_type,
            class: self.class,
            ttl: self.ttl,
            rdata: self.rdata.clone(),
        }
    }
}

/// A record whose name is uncompressed and well formed, and whose data fits a
/// 16-bit length, parses back from its wire form, wherever that stands.
pub proof fn lemma_record_round_trip(buf: Seq<u8>, p: int, r: RecordView)
    requires
        plain_name(r.name),
        r.rdata.len() <= 0xFFFF,
        occurs_at(buf, p, record_bytes(r)),
    ensures
        parse_record(buf, p) == Ok::<(RecordView, int), DnsError>((r, record_bytes(r).len() as int)),
{
    let n = r.name;
    let rl = (r.rdata.len() % 0x1_0000) as u16;
    let a = n + be16(r.record_type);
    let b = a + be16(r.class);
    let c = b + be32(r.ttl);
    let d = c + be16(rl);
    lemma_occurs_split(buf, p, d, r.rdata);
    lemma_occurs_split(buf, p, c, be16(rl));
    lemma_occurs_split(buf, p, b, be32(r.ttl));
    lemma_occurs_split(buf, p, a, be16(r.class));
    lemma_occurs_split(buf, p, n, be16(r.record_type));
    lemma_plain_name_decodes(buf, p, n, MAX_JUMPS as nat);
    lemma_u16_round_trip(buf, p + n.len(), r.record_type);
    lemma_u16_round_trip(buf, p + n.len() + 2, r.class);
    lemma_u32_round_trip(buf, p + n.len() + 4, r.ttl);
    lemma_u16_round_trip(buf, p + n.len() + 8, rl);
    let q = p + n.len() + 10;
    assert(buf.subrange(q, q + r.rdata.len()) == r.rdata);
}

} // verus!
