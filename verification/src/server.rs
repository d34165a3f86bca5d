//! The server's decision function: from one received datagram and the name
//! table to the reply bytes, or to silence. The socket loop around it only
//! receives, calls this, and sends.

use vstd::prelude::*;

use crate::database::SimpleDnsDatabase;
use crate::database::lower_of;
use crate::header::DnsHeader;
use crate::message::DnsMessage;
use crate::message::MessageModel;
use crate::message::message_encodable;
use crate::message::spec_message_bytes;
use crate::message::spec_parse_message;
use crate::question::QuestionModel;
use crate::record::DnsRecord;
use crate::record::RecordModel;
use crate::types::DnsClass;
use crate::types::DnsError;
use crate::types::DnsRecordType;
use crate::types::Ipv4Address;
use vstd::utf8::decode_utf8;
use vstd::utf8::valid_utf8;

verus! {

/// Answer records carry this time to live, in seconds.
pub const ANSWER_TTL: u32 = 300;

/// The four data bytes of an A record for this address.
pub open spec fn a_record_data(ip: Ipv4Address) -> Seq<u8> {
    seq![ip.o0, ip.o1, ip.o2, ip.o3]
}

/// How the server walks the questions: an A-type question whose name is in
/// the table appends one answer record and counts it; a name not in the
/// table sets the name-error code; any other type sets the not-implemented
/// code. A later question's outcome overwrites the code set by an earlier
/// one. Returns the answers, the response code, and the answer count.
pub open spec fn spec_respond(
    qs: Seq<QuestionModel>,
    db: Map<Seq<char>, Ipv4Address>,
    answers: Seq<RecordModel>,
    rcode: u8,
    ancount: u16,
) -> (Seq<RecordModel>, u8, u16)
    decreases qs.len(),
{
    if qs.len() == 0 {
        (answers, rcode, ancount)
    } else {
        let q = qs[0];
        if q.qtype == DnsRecordType::A {
            let key = lower_of(decode_utf8(q.name));
            if db.contains_key(key) {
                let rec = RecordModel {
                    name: q.name,
                    rtype: DnsRecordType::A,
                    class: DnsClass::IN,
                    ttl: ANSWER_TTL,
                    data: a_record_data(db[key]),
                };
                spec_respond(
                    qs.drop_first(),
                    db,
                    answers.push(rec),
                    rcode,
                    vstd::wrapping::u16_specs::wrapping_add(ancount, 1),
                )
            } else {
                spec_respond(qs.drop_first(), db, answers, 3, ancount)
            }
        } else {
            spec_respond(qs.drop_first(), db, answers, 4, ancount)
        }
    }
}

/// The response to a query: the query's header with the response and
/// recursion-available bits set and the walked response code and answer
/// count, the query's questions, and the answers the walk collected.
pub open spec fn spec_response(query: MessageModel, db: Map<Seq<char>, Ipv4Address>) -> MessageModel {
    let walked = spec_respond(
        query.questions,
        db,
        Seq::empty(),
        query.header.rcode,
        query.header.ancount,
    );
    MessageModel {
        header: DnsHeader { qr: true, ra: true, rcode: walked.1, ancount: walked.2, ..query.header },
        questions: query.questions,
        answers: walked.0,
        authorities: Seq::empty(),
        additionals: Seq::empty(),
    }
}

/// Every question name in the message decodes as UTF-8; for such packets
/// the reply is pinned down exactly.
pub open spec fn all_question_names_utf8(m: MessageModel) -> bool {
    forall|i: int| 0 <= i < m.questions.len() ==> valid_utf8(#[trigger] m.questions[i].name)
}

/// Handles one received datagram: parse it, answer each question from the
/// table, and serialize the reply. A datagram that does not parse, and a
/// reply that cannot be serialized, are dropped without an answer.
pub fn handle_packet(data: &[u8], db: &SimpleDnsDatabase) -> (r: Option<Vec<u8>>)
    requires
        db.wf(),
    ensures
        match spec_parse_message(data@) {
            Ok(mm) => all_question_names_utf8(mm) ==> {
                let resp = spec_response(mm, db@);
                match r {
                    Some(v) => message_encodable(resp) && v@ == spec_message_bytes(resp),
                    None => !message_encodable(resp),
                }
            },
            Err(_) => r is None,
        },
{
    let query = match DnsMessage::from_bytes(data) {
        Ok(q) => q,
        Err(_) => {
            return None;
        },
    };
    let ghost mm = spec_parse_message(data@)->Ok_0;
    let mut response = DnsMessage::new_response(&query);
    let ghost fold0 = spec_respond(
        mm.questions,
        db@,
        Seq::empty(),
        mm.header.rcode,
        mm.header.ancount,
    );
    proof {
        if all_question_names_utf8(mm) {
            assert(mm.questions.skip(0) =~= mm.questions);
            assert(response@.answers =~= Seq::<RecordModel>::empty());
        }
    }
    let mut i: usize = 0;
    while i < query.questions.len()
        invariant
            db.wf(),
            spec_parse_message(data@) == Ok::<MessageModel, DnsError>(mm),
            crate::message::message_matches(query@, mm),
            fold0 == spec_respond(mm.questions, db@, Seq::empty(), mm.header.rcode, mm.header.ancount),
            i <= query.questions@.len(),
            query.questions@.len() == mm.questions.len(),
            response.questions@ == query.questions@,
            response.answers@.len() <= i,
            response.authorities@.len() == 0,
            response.additionals@.len() == 0,
            response.header == (DnsHeader {
                qr: true,
                ra: true,
                rcode: response.header.rcode,
                ancount: response.header.ancount,
                ..mm.header
            }),
            all_question_names_utf8(mm) ==> fold0 == spec_respond(
                mm.questions.skip(i as int),
                db@,
                response@.answers,
                response.header.rcode,
                response.header.ancount,
            ),
        decreases query.questions@.len() - i,
    {
        let question = &query.questions[i];
        proof {
            assert(crate::message::question_matches(query@.questions[i as int], mm.questions[i as int]));
            assert(question@ == query@.questions[i as int]);
            if all_question_names_utf8(mm) {
                assert(valid_utf8(mm.questions[i as int].name));
                assert(mm.questions.skip(i as int)[0] == mm.questions[i as int]);
                assert(mm.questions.skip(i as int).drop_first() =~= mm.questions.skip(i as int + 1));
                // The printable name is exactly the decoded wire name, so
                // the lookup key agrees with the walk's key.
                vstd::utf8::encode_utf8_decode_utf8(question.name@);
                assert(question@.name == mm.questions[i as int].name);
                assert(question.name@ == decode_utf8(mm.questions[i as int].name));
            }
        }
        if question.qtype == DnsRecordType::A {
            match db.lookup(question.name.as_str()) {
                Some(ip) => {
                    let record = DnsRecord::new_a_record(question.name.clone(), ip, ANSWER_TTL);
                    proof {
                        if all_question_names_utf8(mm) {
                            vstd::utf8::decode_utf8_encode_utf8(mm.questions[i as int].name);
                            assert(record@ == (RecordModel {
                                name: mm.questions[i as int].name,
                                rtype: DnsRecordType::A,
                                class: DnsClass::IN,
                                ttl: ANSWER_TTL,
                                data: a_record_data(ip),
                            }));
                        }
                    }
                    let ghost answers0 = response@.answers;
                    response.answers.push(record);
                    response.header.ancount = response.header.ancount.wrapping_add(1);
                    proof {
                        assert(response@.answers =~= answers0.push(record@));
                    }
                },
                None => {
                    response.header.rcode = 3;
                },
            }
        } else {
            response.header.rcode = 4;
        }
        i = i + 1;
    }
    proof {
        if all_question_names_utf8(mm) {
            assert(mm.questions.skip(mm.questions.len() as int) =~= Seq::<QuestionModel>::empty());
            assert forall|k: int| 0 <= k < mm.questions.len() implies query@.questions[k]
                == mm.questions[k] by {
                assert(crate::message::question_matches(query@.questions[k], mm.questions[k]));
            }
            assert(query@.questions =~= mm.questions);
            assert(response@.questions =~= mm.questions);
            assert(response@.authorities =~= Seq::<RecordModel>::empty());
            assert(response@.additionals =~= Seq::<RecordModel>::empty());
            assert(response@.answers == spec_response(mm, db@).answers);
            assert(response@.header == spec_response(mm, db@).header);
            assert(response@ == spec_response(mm, db@));
        }
    }
    match response.to_bytes() {
        Ok(v) => Some(v),
        Err(_) => None,
    }
}

} // verus!
