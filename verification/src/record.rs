//! A resource record: a name, a type, a class, a time to live, and opaque
//! data carried with its length. An A record's data is an IPv4 address.

use vstd::prelude::*;

use crate::name::name_encodable;
use crate::name::spec_encode_name;
use crate::types::DnsClass;
use crate::types::DnsError;
use crate::types::DnsRecordType;
use crate::types::Ipv4Address;
use crate::types::class_code;
use crate::types::record_type_code;
use crate::wire::push_u16_be;
use crate::wire::push_u32_be;
use crate::wire::spec_u16_be;
use crate::wire::spec_u32_be;
use vstd::utf8::encode_utf8;

verus! {

/// One resource record of a response.
#[derive(Debug, Clone)]
pub struct DnsRecord {
    /// The domain name the record is about, in printable dotted form.
    pub name: String,
    /// The record's type.
    pub rtype: DnsRecordType,
    /// The record's class; always Internet here.
    pub class: DnsClass,
    /// How many seconds a receiver may cache the record.
    pub ttl: u32,
    /// The record's payload; exactly 4 address bytes for an A record.
    pub data: Vec<u8>,
}

/// The mathematical shape of a record: the name as its UTF-8 bytes.
pub struct RecordModel {
    pub name: Seq<u8>,
    pub rtype: DnsRecordType,
    pub class: DnsClass,
    pub ttl: u32,
    pub data: Seq<u8>,
}

impl View for DnsRecord {
    type V = RecordModel;

    open spec fn view(&self) -> RecordModel {
        RecordModel {
            name: encode_utf8(self.name@),
            rtype: self.rtype,
            class: self.class,
            ttl: self.ttl,
            data: self.data@,
        }
    }
}

/// A record can be put on the wire: its name encodes and its data length
/// fits the two-byte length field.
pub open spec fn record_encodable(r: RecordModel) -> bool {
    name_encodable(r.name) && r.data.len() <= 0xFFFF
}

/// The wire bytes of a record: encoded name, type, class, ttl, then the
/// data length and the data itself.
pub open spec fn spec_record_bytes(r: RecordModel) -> Seq<u8> {
    spec_encode_name(r.name) + spec_u16_be(record_type_code(r.rtype)) + spec_u16_be(
        class_code(r.class),
    ) + spec_u32_be(r.ttl) + spec_u16_be(r.data.len() as u16) + r.data
}

impl DnsRecord {
    /// An Internet-class A record holding the four address octets.
    pub fn new_a_record(name: String, ip: Ipv4Address, ttl: u32) -> (r: Self)
        ensures
            r.name == name,
            r.rtype == DnsRecordType::A,
            r.class == DnsClass::IN,
            r.ttl == ttl,
            r.data@ == seq![ip.o0, ip.o1, ip.o2, ip.o3],
    {
        let mut data: Vec<u8> = Vec::new();
        data.push(ip.o0);
        data.push(ip.o1);
        data.push(ip.o2);
        data.push(ip.o3);
        assert(data@ =~= seq![ip.o0, ip.o1, ip.o2, ip.o3]);
        DnsRecord { name, rtype: DnsRecordType::A, class: DnsClass::IN, ttl, data }
    }

    /// The wire bytes of this record; fails, rather than truncating, if
    /// the name has a label over 63 bytes or the data is longer than the
    /// length field can say.
    pub fn to_bytes(&self) -> (r: Result<Vec<u8>, DnsError>)
        ensures
            match r {
                Ok(v) => record_encodable(self@) && v@ == spec_record_bytes(self@),
                Err(e) => !record_encodable(self@) && e == DnsError::ParseError,
            },
    {
        match crate::question::DnsQuestion::encode_name(self.name.as_str()) {
            Ok(mut v) => {
                if self.data.len() > 0xFFFF {
                    return Err(DnsError::ParseError);
                }
                push_u16_be(&mut v, self.rtype.to_u16());
                push_u16_be(&mut v, self.class.to_u16());
                push_u32_be(&mut v, self.ttl);
                push_u16_be(&mut v, self.data.len() as u16);
                let mut k: usize = 0;
                let ghost mid = v@;
                while k < self.data.len()
                    invariant
                        k <= self.data@.len(),
                        v@ == mid + self.data@.subrange(0, k as int),
                    decreases self.data@.len() - k,
                {
                    v.push(self.data[k]);
                    k = k + 1;
                    assert(v@ =~= mid + self.data@.subrange(0, k as int));
                }
                assert(self.data@.subrange(0, self.data@.len() as int) =~= self.data@);
                assert(v@ =~= spec_record_bytes(self@));
                Ok(v)
            },
            Err(e) => Err(e),
        }
    }

    /// The IPv4 address an A record holds, if its data is exactly four
    /// bytes; nothing for any other record.
    pub fn get_ip(&self) -> (r: Option<Ipv4Address>)
        ensures
            r == if self.rtype == DnsRecordType::A && self.data@.len() == 4 {
                Some(
                    Ipv4Address {
                        o0: self.data@[0],
                        o1: self.data@[1],
                        o2: self.data@[2],
                        o3: self.data@[3],
                    },
                )
            } else {
                None
            },
    {
        if self.rtype == DnsRecordType::A && self.data.len() == 4 {
            Some(
                Ipv4Address {
                    o0: self.data[0],
                    o1: self.data[1],
                    o2: self.data[2],
                    o3: self.data[3],
                },
            )
        } else {
            None
        }
    }
}

} // verus!
