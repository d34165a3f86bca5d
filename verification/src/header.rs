//! The fixed 12-byte message header: transaction id, bit-packed flags, and
//! the four section counts, all big-endian.

use vstd::prelude::*;

use crate::types::DnsError;
use crate::wire::push_u16_be;
use crate::wire::read_u16_be;
use crate::wire::spec_u16_be;
use crate::wire::spec_u16_from_be;

verus! {

/// The header of a message. The flag fields are packed into two bytes on
/// the wire; the counts say how many entries each section holds.
#[derive(Debug, Clone, Copy, PartialEq, Eq, Structural)]
pub struct DnsHeader {
    /// Transaction id, chosen at random for each fresh query.
    pub id: u16,
    /// False for a query, true for a response.
    pub qr: bool,
    /// Operation code (0 is a standard query); 4 bits on the wire.
    pub opcode: u8,
    /// Authoritative answer.
    pub aa: bool,
    /// Truncated.
    pub tc: bool,
    /// Recursion desired.
    pub rd: bool,
    /// Recursion available.
    pub ra: bool,
    /// Reserved; must be zero; 3 bits on the wire.
    pub z: u8,
    /// Response code (0 success, 3 name not found, 4 not implemented);
    /// 4 bits on the wire.
    pub rcode: u8,
    /// Number of questions.
    pub qdcount: u16,
    /// Number of answer records.
    pub ancount: u16,
    /// Number of authority records.
    pub nscount: u16,
    /// Number of additional records.
    pub arcount: u16,
}

/// The bit-packed fields stay inside their declared widths.
pub open spec fn header_wf(h: DnsHeader) -> bool {
    h.opcode < 16 && h.z < 8 && h.rcode < 16
}

/// The first flag byte: qr(1) opcode(4) aa(1) tc(1) rd(1), MSB first.
pub open spec fn flags_hi(h: DnsHeader) -> u8 {
    (if h.qr {
        0x80u8
    } else {
        0u8
    }) | ((h.opcode & 0xF) << 3) | (if h.aa {
        4u8
    } else {
        0u8
    }) | (if h.tc {
        2u8
    } else {
        0u8
    }) | (if h.rd {
        1u8
    } else {
        0u8
    })
}

/// The second flag byte: ra(1) z(3) rcode(4), MSB first.
pub open spec fn flags_lo(h: DnsHeader) -> u8 {
    (if h.ra {
        0x80u8
    } else {
        0u8
    }) | ((h.z & 0x7) << 4) | (h.rcode & 0xF)
}

/// The 12 bytes a header serializes to.
pub open spec fn spec_header_bytes(h: DnsHeader) -> Seq<u8> {
    spec_u16_be(h.id) + seq![flags_hi(h), flags_lo(h)] + spec_u16_be(h.qdcount) + spec_u16_be(
    h.ancount) + spec_u16_be(h.nscount) + spec_u16_be(h.arcount)
}

/// The header the first 12 bytes of a buffer stand for, or nothing if the
/// buffer is shorter than that.
pub open spec fn spec_parse_header(data: Seq<u8>) -> Option<DnsHeader> {
    if data.len() < 12 {
        None
    } else {
        Some(
            DnsHeader {
                id: spec_u16_from_be(data[0], data[1]),
                qr: data[2] & 0x80 != 0,
                opcode: (data[2] >> 3) & 0xF,
                aa: data[2] & 0x04 != 0,
                tc: data[2] & 0x02 != 0,
                rd: data[2] & 0x01 != 0,
                ra: data[3] & 0x80 != 0,
                z: (data[3] >> 4) & 0x7,
                rcode: data[3] & 0xF,
                qdcount: spec_u16_from_be(data[4], data[5]),
                ancount: spec_u16_from_be(data[6], data[7]),
                nscount: spec_u16_from_be(data[8], data[9]),
                arcount: spec_u16_from_be(data[10], data[11]),
            },
        )
    }
}

/// Parsing a serialized header, inside any longer buffer, gives back every
/// field exactly.
pub proof fn lemma_header_round_trip(h: DnsHeader, rest: Seq<u8>)
    requires
        header_wf(h),
    ensures
        spec_parse_header(spec_header_bytes(h) + rest) == Some(h),
{
    let bytes = spec_header_bytes(h) + rest;
    assert(bytes[0] == spec_u16_be(h.id)[0] && bytes[1] == spec_u16_be(h.id)[1]);
    assert(bytes[2] == flags_hi(h) && bytes[3] == flags_lo(h));
    assert(bytes[4] == spec_u16_be(h.qdcount)[0] && bytes[5] == spec_u16_be(h.qdcount)[1]);
    assert(bytes[6] == spec_u16_be(h.ancount)[0] && bytes[7] == spec_u16_be(h.ancount)[1]);
    assert(bytes[8] == spec_u16_be(h.nscount)[0] && bytes[9] == spec_u16_be(h.nscount)[1]);
    assert(bytes[10] == spec_u16_be(h.arcount)[0] && bytes[11] == spec_u16_be(h.arcount)[1]);
    crate::wire::lemma_u16_be_round_trip(h.id);
    crate::wire::lemma_u16_be_round_trip(h.qdcount);
    crate::wire::lemma_u16_be_round_trip(h.ancount);
    crate::wire::lemma_u16_be_round_trip(h.nscount);
    crate::wire::lemma_u16_be_round_trip(h.arcount);
    lemma_flags_hi_round_trip(h);
    lemma_flags_lo_round_trip(h);
}

/// Each field packed into the first flag byte is read back exactly.
proof fn lemma_flags_hi_round_trip(h: DnsHeader)
    requires
        h.opcode < 16,
    ensures
        (flags_hi(h) & 0x80 != 0) == h.qr,
        (flags_hi(h) >> 3) & 0xF == h.opcode,
        (flags_hi(h) & 0x04 != 0) == h.aa,
        (flags_hi(h) & 0x02 != 0) == h.tc,
        (flags_hi(h) & 0x01 != 0) == h.rd,
{
    let op = h.opcode;
    let qr = h.qr;
    let aa = h.aa;
    let tc = h.tc;
    let rd = h.rd;
    let b = flags_hi(h);
    assert({
        let b = (if qr {
            0x80u8
        } else {
            0u8
        }) | ((op & 0xF) << 3) | (if aa {
            4u8
        } else {
            0u8
        }) | (if tc {
            2u8
        } else {
            0u8
        }) | (if rd {
            1u8
        } else {
            0u8
        });
        op < 16 ==> ((b & 0x80 != 0) == qr && (b >> 3) & 0xF == op && (b & 0x04 != 0) == aa && (b
            & 0x02 != 0) == tc && (b & 0x01 != 0) == rd)
    }) by (bit_vector);
}

/// Each field packed into the second flag byte is read back exactly.
proof fn lemma_flags_lo_round_trip(h: DnsHeader)
    requires
        h.z < 8,
        h.rcode < 16,
    ensures
        (flags_lo(h) & 0x80 != 0) == h.ra,
        (flags_lo(h) >> 4) & 0x7 == h.z,
        flags_lo(h) & 0xF == h.rcode,
{
    let z = h.z;
    let rc = h.rcode;
    let ra = h.ra;
    assert({
        let b = (if ra {
            0x80u8
        } else {
            0u8
        }) | ((z & 0x7) << 4) | (rc & 0xF);
        (z < 8 && rc < 16) ==> ((b & 0x80 != 0) == ra && (b >> 4) & 0x7 == z && b & 0xF == rc)
    }) by (bit_vector);
}

/// Relies on rand::random: a fresh transaction id drawn from the thread's
/// generator; nothing can be promised of its value.
#[verifier::external_body]
fn random_u16() -> u16 {
    rand::random()
}

impl DnsHeader {
    /// A fresh query header: random id, recursion desired, everything else
    /// zeroed.
    pub fn new() -> (h: Self)
        ensures
            h == (DnsHeader {
                id: h.id,
                qr: false,
                opcode: 0,
                aa: false,
                tc: false,
                rd: true,
                ra: false,
                z: 0,
                rcode: 0,
                qdcount: 0,
                ancount: 0,
                nscount: 0,
                arcount: 0,
            }),
            header_wf(h),
    {
        DnsHeader {
            id: random_u16(),
            qr: false,
            opcode: 0,
            aa: false,
            tc: false,
            rd: true,
            ra: false,
            z: 0,
            rcode: 0,
            qdcount: 0,
            ancount: 0,
            nscount: 0,
            arcount: 0,
        }
    }

    /// Packs the header into its 12 wire bytes.
    pub fn to_bytes(&self) -> (r: Vec<u8>)
        ensures
            r@ == spec_header_bytes(*self),
            r@.len() == 12,
    {
        let mut bytes: Vec<u8> = Vec::new();
        push_u16_be(&mut bytes, self.id);

        let hi: u8 = (if self.qr {
            0x80u8
        } else {
            0u8
        }) | ((self.opcode & 0xF) << 3) | (if self.aa {
            4u8
        } else {
            0u8
        }) | (if self.tc {
            2u8
        } else {
            0u8
        }) | (if self.rd {
            1u8
        } else {
            0u8
        });
        assert(hi == flags_hi(*self));

        let lo: u8 = (if self.ra {
            0x80u8
        } else {
            0u8
        }) | ((self.z & 0x7) << 4) | (self.rcode & 0xF);
        assert(lo == flags_lo(*self));

        bytes.push(hi);
        bytes.push(lo);
        push_u16_be(&mut bytes, self.qdcount);
        push_u16_be(&mut bytes, self.ancount);
        push_u16_be(&mut bytes, self.nscount);
        push_u16_be(&mut bytes, self.arcount);
        assert(bytes@ =~= spec_header_bytes(*self));
        bytes
    }

    /// Unpacks a header from the first 12 bytes of a buffer; fails if the
    /// buffer is shorter than 12 bytes.
    pub fn from_bytes(data: &[u8]) -> (r: Result<Self, DnsError>)
        ensures
            match r {
                Ok(h) => spec_parse_header(data@) == Some(h),
                Err(e) => spec_parse_header(data@) is None && e == DnsError::ParseError,
            },
    {
        if data.len() < 12 {
            return Err(DnsError::ParseError);
        }
        let b2 = data[2];
        let b3 = data[3];
        Ok(
            DnsHeader {
                id: read_u16_be(data, 0),
                qr: b2 & 0x80 != 0,
                opcode: (b2 >> 3) & 0xF,
                aa: b2 & 0x04 != 0,
                tc: b2 & 0x02 != 0,
                rd: b2 & 0x01 != 0,
                ra: b3 & 0x80 != 0,
                z: (b3 >> 4) & 0x7,
                rcode: b3 & 0xF,
                qdcount: read_u16_be(data, 4),
                ancount: read_u16_be(data, 6),
                nscount: read_u16_be(data, 8),
                arcount: read_u16_be(data, 10),
            },
        )
    }
}

} // verus!
