//! The closed sets of record types and classes, the error taxonomy, and a
//! plain IPv4 address value.

use vstd::prelude::*;

verus! {

/// The record/query types this stack understands (a closed set; any other
/// numeric code is rejected at decode time).
#[derive(Debug, Clone, Copy, PartialEq, Eq, Structural)]
pub enum DnsRecordType {
    A,
    NS,
    CNAME,
    PTR,
    MX,
    AAAA,
}

/// The numeric code a record type carries on the wire.
pub open spec fn record_type_code(t: DnsRecordType) -> u16 {
    match t {
        DnsRecordType::A => 1,
        DnsRecordType::NS => 2,
        DnsRecordType::CNAME => 5,
        DnsRecordType::PTR => 12,
        DnsRecordType::MX => 15,
        DnsRecordType::AAAA => 28,
    }
}

/// The record type a numeric code stands for, if any.
pub open spec fn spec_record_type_from_u16(value: u16) -> Option<DnsRecordType> {
    match value {
        1u16 => Some(DnsRecordType::A),
        2u16 => Some(DnsRecordType::NS),
        5u16 => Some(DnsRecordType::CNAME),
        12u16 => Some(DnsRecordType::PTR),
        15u16 => Some(DnsRecordType::MX),
        28u16 => Some(DnsRecordType::AAAA),
        _ => None,
    }
}

impl DnsRecordType {
    pub fn from_u16(value: u16) -> (r: Option<Self>)
        ensures
            r == spec_record_type_from_u16(value),
    {
        match value {
            1 => Some(DnsRecordType::A),
            2 => Some(DnsRecordType::NS),
            5 => Some(DnsRecordType::CNAME),
            12 => Some(DnsRecordType::PTR),
            15 => Some(DnsRecordType::MX),
            28 => Some(DnsRecordType::AAAA),
            _ => None,
        }
    }

    /// The numeric code written on the wire for this type.
    pub fn to_u16(self) -> (r: u16)
        ensures
            r == record_type_code(self),
    {
        match self {
            DnsRecordType::A => 1,
            DnsRecordType::NS => 2,
            DnsRecordType::CNAME => 5,
            DnsRecordType::PTR => 12,
            DnsRecordType::MX => 15,
            DnsRecordType::AAAA => 28,
        }
    }
}

/// A type's wire code decodes back to the type.
pub proof fn lemma_record_type_code_inverse(t: DnsRecordType)
    ensures
        spec_record_type_from_u16(record_type_code(t)) == Some(t),
{
}

/// The classes this stack understands: only "Internet".
#[derive(Debug, Clone, Copy, PartialEq, Eq, Structural)]
pub enum DnsClass {
    IN,
}

/// The numeric code a class carries on the wire.
pub open spec fn class_code(c: DnsClass) -> u16 {
    match c {
        DnsClass::IN => 1,
    }
}

/// The class a numeric code stands for, if any.
pub open spec fn spec_class_from_u16(value: u16) -> Option<DnsClass> {
    if value == 1 {
        Some(DnsClass::IN)
    } else {
        None
    }
}

impl DnsClass {
    pub fn from_u16(value: u16) -> (r: Option<Self>)
        ensures
            r == spec_class_from_u16(value),
    {
        match value {
            1 => Some(DnsClass::IN),
            _ => None,
        }
    }

    /// The numeric code written on the wire for this class.
    pub fn to_u16(self) -> (r: u16)
        ensures
            r == class_code(self),
    {
        match self {
            DnsClass::IN => 1,
        }
    }
}

/// What can go wrong: malformed or truncated bytes, a numeric code outside
/// the closed sets, no reply within the deadline, or a socket-level fault.
/// The last two are raised only by the unverified transport around this
/// library.
#[derive(Debug, Clone, Copy, PartialEq, Eq, Structural)]
pub enum DnsError {
    ParseError,
    UnsupportedCode,
    Timeout,
    Transport,
}

/// An IPv4 address as four plain octets.
#[derive(Debug, Clone, Copy, PartialEq, Eq, Structural)]
pub struct Ipv4Address {
    pub o0: u8,
    pub o1: u8,
    pub o2: u8,
    pub o3: u8,
}

impl Ipv4Address {
    pub fn new(o0: u8, o1: u8, o2: u8, o3: u8) -> (r: Self)
        ensures
            r == (Ipv4Address { o0, o1, o2, o3 }),
    {
        Ipv4Address { o0, o1, o2, o3 }
    }
}

} // verus!
