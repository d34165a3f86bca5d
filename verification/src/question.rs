//! A query question: a printable name, a query type, and a class. Also the
//! public entry points for the name codec.

use vstd::prelude::*;

use crate::name::MAX_POINTER_JUMPS;
use crate::name::bytes_to_string;
use crate::name::decode_name_rec;
use crate::name::encode_labels_into;
use crate::name::name_encodable;
use crate::name::spec_decode_name;
use crate::name::spec_encode_name;
use crate::types::DnsClass;
use crate::types::DnsError;
use crate::types::DnsRecordType;
use crate::types::class_code;
use crate::types::record_type_code;
use crate::types::spec_class_from_u16;
use crate::types::spec_record_type_from_u16;
use crate::wire::push_u16_be;
use crate::wire::spec_u16_be;
use crate::wire::spec_u16_from_be;
use vstd::utf8::decode_utf8;
use vstd::utf8::encode_utf8;
use vstd::utf8::valid_utf8;

verus! {

/// One question of a query.
#[derive(Debug, Clone)]
pub struct DnsQuestion {
    /// The domain name asked about, in printable dotted form.
    pub name: String,
    /// The type of record asked for.
    pub qtype: DnsRecordType,
    /// The class asked in; always Internet here.
    pub qclass: DnsClass,
}

/// The mathematical shape of a question: the name as its UTF-8 bytes.
pub struct QuestionModel {
    pub name: Seq<u8>,
    pub qtype: DnsRecordType,
    pub qclass: DnsClass,
}

impl View for DnsQuestion {
    type V = QuestionModel;

    open spec fn view(&self) -> QuestionModel {
        QuestionModel { name: encode_utf8(self.name@), qtype: self.qtype, qclass: self.qclass }
    }
}

/// The wire bytes of a question: encoded name, then type and class codes.
pub open spec fn spec_question_bytes(q: QuestionModel) -> Seq<u8> {
    spec_encode_name(q.name) + spec_u16_be(record_type_code(q.qtype)) + spec_u16_be(
        class_code(q.qclass),
    )
}

/// What parsing one question at `offset` yields: the question and the
/// offset after it. A bad name is a parse error; a type or class code
/// outside the closed sets is an unsupported-code error.
pub open spec fn spec_parse_question(data: Seq<u8>, offset: int) -> Result<
    (QuestionModel, int),
    DnsError,
> {
    match spec_decode_name(data, offset, MAX_POINTER_JUMPS as nat) {
        Some((nb, off1)) => {
            if off1 + 4 > data.len() {
                Err(DnsError::ParseError)
            } else {
                let tcode = spec_u16_from_be(data[off1], data[off1 + 1]);
                let ccode = spec_u16_from_be(data[off1 + 2], data[off1 + 3]);
                if spec_record_type_from_u16(tcode) is Some && spec_class_from_u16(
                    ccode,
                ) is Some {
                    Ok(
                        (
                            QuestionModel {
                                name: nb,
                                qtype: spec_record_type_from_u16(tcode)->Some_0,
                                qclass: spec_class_from_u16(ccode)->Some_0,
                            },
                            off1 + 4,
                        ),
                    )
                } else {
                    Err(DnsError::UnsupportedCode)
                }
            }
        },
        None => Err(DnsError::ParseError),
    }
}

impl DnsQuestion {
    /// A question in the Internet class.
    pub fn new(name: String, qtype: DnsRecordType) -> (r: Self)
        ensures
            r.name == name,
            r.qtype == qtype,
            r.qclass == DnsClass::IN,
    {
        DnsQuestion { name, qtype, qclass: DnsClass::IN }
    }

    /// Encodes a dotted name into length-prefixed labels ended by a zero
    /// byte; fails, rather than truncating, if a label is over 63 bytes.
    pub fn encode_name(name: &str) -> (r: Result<Vec<u8>, DnsError>)
        ensures
            match r {
                Ok(v) => name_encodable(encode_utf8(name@)) && v@ == spec_encode_name(
                    encode_utf8(name@),
                ),
                Err(e) => !name_encodable(encode_utf8(name@)) && e == DnsError::ParseError,
            },
    {
        let bytes = name.as_bytes();
        let mut out: Vec<u8> = Vec::new();
        proof {
            assert(bytes@.skip(0) =~= bytes@);
        }
        match encode_labels_into(bytes, 0, &mut out) {
            Ok(_) => {
                out.push(0);
                assert(out@ =~= spec_encode_name(encode_utf8(name@)));
                Ok(out)
            },
            Err(e) => Err(e),
        }
    }

    /// Decodes the name starting at `*offset`, advancing `*offset` past it
    /// (past the first pointer, if the name was compressed). Fails on
    /// truncated input and on pointer chains longer than the jump limit,
    /// leaving `*offset` unchanged.
    pub fn decode_name(data: &[u8], offset: &mut usize) -> (r: Result<String, DnsError>)
        ensures
            match r {
                Ok(s) => spec_decode_name(data@, *old(offset) as int, MAX_POINTER_JUMPS as nat)
                    matches Some((nb, end)) && *final(offset) == end && *final(offset)
                    <= data@.len() && (valid_utf8(nb) ==> s@ == decode_utf8(nb)),
                Err(e) => spec_decode_name(
                    data@,
                    *old(offset) as int,
                    MAX_POINTER_JUMPS as nat,
                ) is None && e == DnsError::ParseError && *final(offset) == *old(offset),
            },
    {
        match decode_name_rec(data, *offset, MAX_POINTER_JUMPS) {
            Ok((name_bytes, end)) => {
                *offset = end;
                Ok(bytes_to_string(name_bytes.as_slice()))
            },
            Err(e) => Err(e),
        }
    }

    /// The wire bytes of this question; fails if the name has a label over
    /// 63 bytes.
    pub fn to_bytes(&self) -> (r: Result<Vec<u8>, DnsError>)
        ensures
            match r {
                Ok(v) => name_encodable(self@.name) && v@ == spec_question_bytes(self@),
                Err(e) => !name_encodable(self@.name) && e == DnsError::ParseError,
            },
    {
        match Self::encode_name(self.name.as_str()) {
            Ok(mut v) => {
                push_u16_be(&mut v, self.qtype.to_u16());
                push_u16_be(&mut v, self.qclass.to_u16());
                assert(v@ =~= spec_question_bytes(self@));
                Ok(v)
            },
            Err(e) => Err(e),
        }
    }
}

} // verus!
