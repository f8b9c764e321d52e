//! The 12-byte fixed message header.
use crate::error::DnsError;
use crate::wire::{
    be16, buf_contents, buf_new, buf_put_u16, lemma_u16_round_trip, read_u16, u16_at,
};
use bytes::BytesMut;
use vstd::prelude::*;

verus! {

/// Size of the header on the wire.
pub const HEADER_LEN: usize = 12;

/// The fixed header: an identifier, the packed flags and four section counts.
#[derive(Clone, Copy, Debug, PartialEq, Eq, Structural)]
pub struct DnsHeader {
    pub id: u16,
    /// `QR(1) | OPCODE(4) | AA(1) | TC(1) | RD(1) | RA(1) | Z(3) | RCODE(4)`, most significant first.
    pub flags: u16,
    pub qdcount: u16,
    pub ancount: u16,
    pub nscount: u16,
    pub arcount: u16,
}

/// The QR bit: 0 for a query, 1 for a response.
pub open spec fn flag_qr(f: u16) -> u16 {
    (f >> 15u16) & 1
}

/// The 4-bit operation code.
pub open spec fn flag_opcode(f: u16) -> u16 {
    (f >> 11u16) & 0xF
}

/// The authoritative-answer bit.
pub open spec fn flag_aa(f: u16) -> u16 {
    (f >> 10u16) & 1
}

/// The truncation bit.
pub open spec fn flag_tc(f: u16) -> u16 {
    (f >> 9u16) & 1
}

/// The recursion-desired bit.
pub open spec fn flag_rd(f: u16) -> u16 {
    (f >> 8u16) & 1
}

/// The recursion-available bit.
pub open spec fn flag_ra(f: u16) -> u16 {
    (f >> 7u16) & 1
}

/// The three reserved bits.
pub open spec fn flag_z(f: u16) -> u16 {
    (f >> 4u16) & 7
}

/// The 4-bit response code.
pub open spec fn flag_rcode(f: u16) -> u16 {
    f & 0xF
}

/// The response code answered to an operation code: 0 for a standard query,
/// 4 (not implemented) otherwise.
pub open spec fn rcode_for(opcode: u16) -> u16 {
    if opcode == 0 {
        0
    } else {
        4
    }
}

/// The response header derived from request header `h` with the given section counts.
pub open spec fn response_header(h: DnsHeader, qdcount: u16, ancount: u16) -> DnsHeader {
    DnsHeader {
        id: h.id,
        flags: 0x8000u16 | (flag_opcode(h.flags) << 11u16) | (flag_rd(h.flags) << 8u16) | rcode_for(
            flag_opcode(h.flags),
        ),
        qdcount,
        ancount,
        nscount: 0,
        arcount: 0,
    }
}

/// The header's wire form: the six fields in order, big-endian.
pub open spec fn header_bytes(h: DnsHeader) -> Seq<u8> {
    be16(h.id) + be16(h.flags) + be16(h.qdcount) + be16(h.ancount) + be16(h.nscount) + be16(
        h.arcount,
    )
}

/// The header read from the first twelve bytes of `s`.
pub open spec fn header_from(s: Seq<u8>) -> DnsHeader {
    DnsHeader {
        id: u16_at(s, 0),
        flags: u16_at(s, 2),
        qdcount: u16_at(s, 4),
        ancount: u16_at(s, 6),
        nscount: u16_at(s, 8),
        arcount: u16_at(s, 10),
    }
}

/// Parsing a header: it needs twelve bytes.
pub open spec fn parse_header(s: Seq<u8>) -> Result<DnsHeader, DnsError> {
    if s.len() < 12 {
        Err(DnsError::BufferTruncated)
    } else {
        Ok(header_from(s))
    }
}

impl DnsHeader {
    /// Derives a response header from a request header: the id, OPCODE and RD are
    /// copied, QR is set, AA, TC, RA and Z are clear, RCODE is 0 for a standard
    /// query and 4 otherwise; the section counts are the given ones and zero.
    pub fn new(request_header: &DnsHeader, question_count: u16, answer_count: u16) -> (r: DnsHeader)
        ensures
            r == response_header(*request_header, question_count, answer_count),
            r.id == request_header.id,
            r.flags == 0x8000u16 | (flag_opcode(request_header.flags) << 11u16) | (flag_rd(
                request_header.flags,
            ) << 8u16) | rcode_for(flag_opcode(request_header.flags)),
            flag_qr(r.flags) == 1,
            flag_opcode(r.flags) == flag_opcode(request_header.flags),
            flag_aa(r.flags) == 0,
            flag_tc(r.flags) == 0,
            flag_rd(r.flags) == flag_rd(request_header.flags),
            flag_ra(r.flags) == 0,
            flag_z(r.flags) == 0,
            flag_rcode(r.flags) == rcode_for(flag_opcode(request_header.flags)),
            flag_rcode(r.flags) == 0 <==> flag_opcode(request_header.flags) == 0,
            r.qdcount == question_count,
            r.ancount == answer_count,
            r.nscount == 0,
            r.arcount == 0,
    {
        let id = request_header.id;
        let f = request_header.flags;
        let opcode: u16 = (f >> 11u16) & 0xF;
        let rd: u16 = (f >> 8u16) & 0x1;
        let rcode: u16 = if opcode == 0 {
            0
        } else {
            4
        };
        let flags: u16 = 0x8000u16 | (opcode << 11u16) | (rd << 8u16) | rcode;
        assert(flag_qr(flags) == 1 && flag_opcode(flags) == opcode && flag_aa(flags) == 0
            && flag_tc(flags) == 0 && flag_rd(flags) == rd && flag_ra(flags) == 0 && flag_z(flags)
            == 0 && flag_rcode(flags) == rcode) by (bit_vector)
            requires
                opcode == (f >> 11u16) & 0xF,
                rd == (f >> 8u16) & 0x1,
                rcode == 0 || rcode == 4,
                flags == 0x8000u16 | (opcode << 11u16) | (rd << 8u16) | rcode,
        ;
        DnsHeader {
            id,
            flags,
            qdcount: question_count,
            ancount: answer_count,
            nscount: 0,
            arcount: 0,
        }
    }

    /// Reads a header from the start of `bytes`; fails when fewer than twelve bytes are given.
    pub fn from_bytes(bytes: &[u8]) -> (r: Result<DnsHeader, DnsError>)
        ensures
            r == parse_header(bytes@),
    {
        if bytes.len() < HEADER_LEN {
            return Err(DnsError::BufferTruncated);
        }
        Ok(
            DnsHeader {
                id: read_u16(bytes, 0),
                flags: read_u16(bytes, 2),
                qdcount: read_u16(bytes, 4),
                ancount: read_u16(bytes, 6),
                nscount: read_u16(bytes, 8),
                arcount: read_u16(bytes, 10),
            },
        )
    }

    /// Writes the six fields, big-endian, into a new buffer.
    pub fn to_bytes(&self) -> (r: BytesMut)
        ensures
            buf_contents(r) == header_bytes(*self),
    {
        let mut bytes = buf_new();
        buf_put_u16(&mut bytes, self.id);
        buf_put_u16(&mut bytes, self.flags);
        buf_put_u16(&mut bytes, self.qdcount);
        buf_put_u16(&mut bytes, self.ancount);
        buf_put_u16(&mut bytes, self.nscount);
        buf_put_u16(&mut bytes, self.arcount);
        bytes
    }
}

/// Reading back the wire form of a header gives the header, whatever follows it.
pub proof fn lemma_header_round_trip(h: DnsHeader, rest: Seq<u8>)
    ensures
        header_bytes(h).len() == 12,
        parse_header(header_bytes(h) + rest) == Ok::<DnsHeader, DnsError>(h),
{
    let s = header_bytes(h) + rest;
    assert(header_bytes(h).len() == 12);
    assert(s.subrange(0, 2) =~= be16(h.id));
    assert(s.subrange(2, 4) =~= be16(h.flags));
    assert(s.subrange(4, 6) =~= be16(h.qdcount));
    assert(s.subrange(6, 8) =~= be16(h.ancount));
    assert(s.subrange(8, 10) =~= be16(h.nscount));
    assert(s.subrange(10, 12) =~= be16(h.arcount));
    lemma_u16_round_trip(s, 0, h.id);
    lemma_u16_round_trip(s, 2, h.flags);
    lemma_u16_round_trip(s, 4, h.qdcount);
    lemma_u16_round_trip(s, 6, h.ancount);
    lemma_u16_round_trip(s, 8, h.nscount);
    lemma_u16_round_trip(s, 10, h.arcount);
}

} // verus!
