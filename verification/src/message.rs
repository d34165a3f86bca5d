//! A whole message: header, questions and answers, with query/response
//! constructors, serialization, parsing, and the proof that parsing a
//! serialized message gives it back.

use vstd::prelude::*;

use crate::header::DnsHeader;
use crate::header::header_wf;
use crate::header::lemma_header_round_trip;
use crate::header::spec_header_bytes;
use crate::header::spec_parse_header;
use crate::name::MAX_POINTER_JUMPS;
use crate::name::lemma_decode_encoded_name;
use crate::name::name_encodable;
use crate::name::name_wf;
use crate::name::spec_decode_name;
use crate::name::spec_encode_name;
use crate::name::split_labels;
use crate::question::DnsQuestion;
use crate::question::QuestionModel;
use crate::question::spec_parse_question;
use crate::question::spec_question_bytes;
use crate::record::DnsRecord;
use crate::record::RecordModel;
use crate::record::record_encodable;
use crate::record::spec_record_bytes;
use crate::types::DnsClass;
use crate::types::DnsError;
use crate::types::DnsRecordType;
use crate::types::spec_class_from_u16;
use crate::types::spec_record_type_from_u16;
use crate::wire::read_u16_be;
use crate::wire::read_u32_be;
use crate::wire::spec_u16_from_be;
use crate::wire::spec_u32_from_be;
use vstd::utf8::valid_utf8;

verus! {

/// The mathematical shape of a message.
pub struct MessageModel {
    pub header: DnsHeader,
    pub questions: Seq<QuestionModel>,
    pub answers: Seq<RecordModel>,
    pub authorities: Seq<RecordModel>,
    pub additionals: Seq<RecordModel>,
}

/// A whole message. The authority and additional sections are carried for
/// completeness but are never filled or put on the wire.
#[derive(Debug, Clone)]
pub struct DnsMessage {
    pub header: DnsHeader,
    pub questions: Vec<DnsQuestion>,
    pub answers: Vec<DnsRecord>,
    pub authorities: Vec<DnsRecord>,
    pub additionals: Vec<DnsRecord>,
}

impl View for DnsMessage {
    type V = MessageModel;

    open spec fn view(&self) -> MessageModel {
        MessageModel {
            header: self.header,
            questions: self.questions@.map_values(|q: DnsQuestion| q@),
            answers: self.answers@.map_values(|r: DnsRecord| r@),
            authorities: self.authorities@.map_values(|r: DnsRecord| r@),
            additionals: self.additionals@.map_values(|r: DnsRecord| r@),
        }
    }
}

/// Every question's name can be encoded.
pub open spec fn questions_encodable(qs: Seq<QuestionModel>) -> bool {
    forall|i: int| 0 <= i < qs.len() ==> name_encodable(#[trigger] qs[i].name)
}

/// Every record can be encoded.
pub open spec fn records_encodable(rs: Seq<RecordModel>) -> bool {
    forall|i: int| 0 <= i < rs.len() ==> record_encodable(#[trigger] rs[i])
}

/// A message can be put on the wire.
pub open spec fn message_encodable(m: MessageModel) -> bool {
    questions_encodable(m.questions) && records_encodable(m.answers)
}

/// The wire bytes of a question list, in order.
pub open spec fn spec_questions_bytes(qs: Seq<QuestionModel>) -> Seq<u8>
    decreases qs.len(),
{
    if qs.len() == 0 {
        Seq::empty()
    } else {
        spec_question_bytes(qs[0]) + spec_questions_bytes(qs.drop_first())
    }
}

/// The wire bytes of a record list, in order.
pub open spec fn spec_records_bytes(rs: Seq<RecordModel>) -> Seq<u8>
    decreases rs.len(),
{
    if rs.len() == 0 {
        Seq::empty()
    } else {
        spec_record_bytes(rs[0]) + spec_records_bytes(rs.drop_first())
    }
}

/// The wire bytes of a whole message: header, questions, answers. The
/// authority and additional sections are never emitted.
pub open spec fn spec_message_bytes(m: MessageModel) -> Seq<u8> {
    spec_header_bytes(m.header) + spec_questions_bytes(m.questions) + spec_records_bytes(m.answers)
}

/// Appending a question appends its bytes.
pub proof fn lemma_questions_bytes_push(qs: Seq<QuestionModel>, q: QuestionModel)
    ensures
        spec_questions_bytes(qs.push(q)) == spec_questions_bytes(qs) + spec_question_bytes(q),
    decreases qs.len(),
{
    if qs.len() == 0 {
        assert(qs.push(q)[0] == q);
        assert(qs.push(q).drop_first() =~= Seq::<QuestionModel>::empty());
        assert(spec_questions_bytes(qs.push(q)) == spec_question_bytes(qs.push(q)[0])
            + spec_questions_bytes(qs.push(q).drop_first()));
        assert(spec_questions_bytes(qs.push(q).drop_first()) =~= Seq::<u8>::empty());
        assert(spec_questions_bytes(qs) =~= Seq::<u8>::empty());
        assert(spec_questions_bytes(qs.push(q)) =~= spec_questions_bytes(qs) + spec_question_bytes(
            q,
        ));
    } else {
        assert(qs.push(q).drop_first() =~= qs.drop_first().push(q));
        lemma_questions_bytes_push(qs.drop_first(), q);
        assert(qs.push(q)[0] == qs[0]);
        assert(spec_questions_bytes(qs.push(q)) == spec_question_bytes(qs[0])
            + spec_questions_bytes(qs.drop_first().push(q)));
        assert(spec_questions_bytes(qs) == spec_question_bytes(qs[0]) + spec_questions_bytes(
            qs.drop_first(),
        ));
        assert(spec_questions_bytes(qs.push(q)) =~= spec_questions_bytes(qs) + spec_question_bytes(
            q,
        ));
    }
}

/// Appending a record appends its bytes.
pub proof fn lemma_records_bytes_push(rs: Seq<RecordModel>, r: RecordModel)
    ensures
        spec_records_bytes(rs.push(r)) == spec_records_bytes(rs) + spec_record_bytes(r),
    decreases rs.len(),
{
    if rs.len() == 0 {
        assert(rs.push(r)[0] == r);
        assert(rs.push(r).drop_first() =~= Seq::<RecordModel>::empty());
        assert(spec_records_bytes(rs.push(r)) == spec_record_bytes(rs.push(r)[0])
            + spec_records_bytes(rs.push(r).drop_first()));
        assert(spec_records_bytes(rs.push(r).drop_first()) =~= Seq::<u8>::empty());
        assert(spec_records_bytes(rs) =~= Seq::<u8>::empty());
        assert(spec_records_bytes(rs.push(r)) =~= spec_records_bytes(rs) + spec_record_bytes(r));
    } else {
        assert(rs.push(r).drop_first() =~= rs.drop_first().push(r));
        lemma_records_bytes_push(rs.drop_first(), r);
        assert(rs.push(r)[0] == rs[0]);
        assert(spec_records_bytes(rs.push(r)) == spec_record_bytes(rs[0]) + spec_records_bytes(
            rs.drop_first().push(r),
        ));
        assert(spec_records_bytes(rs) == spec_record_bytes(rs[0]) + spec_records_bytes(
            rs.drop_first(),
        ));
        assert(spec_records_bytes(rs.push(r)) =~= spec_records_bytes(rs) + spec_record_bytes(r));
    }
}

/// What parsing `n` questions at `offset` yields: the questions and the
/// offset after them. Any failure in this section is fatal.
pub open spec fn spec_parse_questions(data: Seq<u8>, offset: int, n: nat) -> Result<
    (Seq<QuestionModel>, int),
    DnsError,
>
    decreases n,
{
    if n == 0 {
        Ok((Seq::empty(), offset))
    } else if offset >= data.len() {
        Err(DnsError::ParseError)
    } else {
        match spec_parse_question(data, offset) {
            Ok((q, off1)) => match spec_parse_questions(data, off1, (n - 1) as nat) {
                Ok((rest, end)) => Ok((seq![q] + rest, end)),
                Err(e) => Err(e),
            },
            Err(e) => Err(e),
        }
    }
}

/// What parsing up to `n` answer records at `offset` yields. This section
/// is lenient about truncation: if a record — its name included — cannot
/// be read in full, parsing stops early and keeps the answers already
/// read. A type or class code outside the closed sets in a fully readable
/// record is an unsupported-code failure, never silent acceptance.
pub open spec fn spec_parse_answers(data: Seq<u8>, offset: int, n: nat) -> Result<
    (Seq<RecordModel>, int),
    DnsError,
>
    decreases n,
{
    if n == 0 {
        Ok((Seq::empty(), offset))
    } else if offset >= data.len() {
        Ok((Seq::empty(), offset))
    } else {
        match spec_decode_name(data, offset, MAX_POINTER_JUMPS as nat) {
            None => Ok((Seq::empty(), offset)),
            Some((nb, off1)) => {
                if off1 + 10 > data.len() {
                    Ok((Seq::empty(), off1))
                } else {
                    let tcode = spec_u16_from_be(data[off1], data[off1 + 1]);
                    let ccode = spec_u16_from_be(data[off1 + 2], data[off1 + 3]);
                    let ttl = spec_u32_from_be(
                        data[off1 + 4],
                        data[off1 + 5],
                        data[off1 + 6],
                        data[off1 + 7],
                    );
                    let rdlen = spec_u16_from_be(data[off1 + 8], data[off1 + 9]) as int;
                    let off2 = off1 + 10;
                    if off2 + rdlen > data.len() {
                        Ok((Seq::empty(), off2))
                    } else if spec_record_type_from_u16(tcode) is None || spec_class_from_u16(
                        ccode,
                    ) is None {
                        Err(DnsError::UnsupportedCode)
                    } else {
                        let rdata = data.subrange(off2, off2 + rdlen);
                        match spec_parse_answers(data, off2 + rdlen, (n - 1) as nat) {
                            Ok((rest, end)) => Ok(
                                (
                                    seq![
                                        RecordModel {
                                            name: nb,
                                            rtype: spec_record_type_from_u16(tcode)->Some_0,
                                            class: spec_class_from_u16(ccode)->Some_0,
                                            ttl: ttl,
                                            data: rdata,
                                        },
                                    ] + rest,
                                    end,
                                ),
                            ),
                            Err(e) => Err(e),
                        }
                    }
                }
            },
        }
    }
}

/// What parsing a whole buffer yields: the header, exactly `qdcount`
/// questions, then up to `ancount` answers (leniently), with empty
/// authority and additional sections.
pub open spec fn spec_parse_message(data: Seq<u8>) -> Result<MessageModel, DnsError> {
    if data.len() < 12 {
        Err(DnsError::ParseError)
    } else {
        let h = spec_parse_header(data)->Some_0;
        match spec_parse_questions(data, 12, h.qdcount as nat) {
            Ok((qs, off)) => match spec_parse_answers(data, off, h.ancount as nat) {
                Ok((ans, _)) => Ok(
                    MessageModel {
                        header: h,
                        questions: qs,
                        answers: ans,
                        authorities: Seq::empty(),
                        additionals: Seq::empty(),
                    },
                ),
                Err(e) => Err(e),
            },
            Err(e) => Err(e),
        }
    }
}

/// A message that survives the wire unchanged: bit-packed header fields
/// inside their widths, counts equal to their sections' lengths, every
/// name made of labels of 1 to 63 bytes (so none is compressed away or
/// empty), record data short enough for its length field, and nothing in
/// the sections that are never emitted.
pub open spec fn message_wf(m: MessageModel) -> bool {
    &&& header_wf(m.header)
    &&& m.header.qdcount == m.questions.len()
    &&& m.header.ancount == m.answers.len()
    &&& forall|i: int| 0 <= i < m.questions.len() ==> name_wf(#[trigger] m.questions[i].name)
    &&& forall|i: int|
        0 <= i < m.answers.len() ==> name_wf(#[trigger] m.answers[i].name)
            && m.answers[i].data.len() <= 0xFFFF
    &&& m.authorities.len() == 0
    &&& m.additionals.len() == 0
}

/// A well-formed name is encodable.
pub proof fn lemma_name_wf_encodable(s: Seq<u8>)
    requires
        name_wf(s),
    ensures
        name_encodable(s),
{
    assert forall|i: int| 0 <= i < split_labels(s).len() implies (#[trigger] split_labels(
        s,
    )[i]).len() <= 63 by {
        assert(1 <= split_labels(s)[i].len() <= 63);
    }
}

/// A byte of an embedded block, read through the enclosing buffer.
proof fn lemma_block_index(data: Seq<u8>, offset: int, block: Seq<u8>, k: int)
    requires
        0 <= offset,
        offset + block.len() <= data.len(),
        data.subrange(offset, offset + block.len() as int) == block,
        0 <= k < block.len(),
    ensures
        data[offset + k] == block[k],
{
    assert(data.subrange(offset, offset + block.len() as int)[k] == data[offset + k]);
}

/// A slice of an embedded block, read through the enclosing buffer.
proof fn lemma_block_sub(data: Seq<u8>, offset: int, block: Seq<u8>, a: int, b: int)
    requires
        0 <= offset,
        offset + block.len() <= data.len(),
        data.subrange(offset, offset + block.len() as int) == block,
        0 <= a <= b <= block.len(),
    ensures
        data.subrange(offset + a, offset + b) == block.subrange(a, b),
{
    assert forall|k: int| 0 <= k < b - a implies data.subrange(offset + a, offset + b)[k]
        == block.subrange(a, b)[k] by {
        lemma_block_index(data, offset, block, a + k);
    }
    assert(data.subrange(offset + a, offset + b) =~= block.subrange(a, b));
}

/// Parsing one serialized question inside a larger buffer gives it back.
proof fn lemma_parse_question_of_encoded(data: Seq<u8>, offset: int, q: QuestionModel)
    requires
        name_wf(q.name),
        0 <= offset,
        offset + spec_question_bytes(q).len() <= data.len(),
        data.subrange(offset, offset + spec_question_bytes(q).len() as int) == spec_question_bytes(
            q,
        ),
    ensures
        spec_parse_question(data, offset) == Ok::<(QuestionModel, int), DnsError>(
            (q, offset + spec_question_bytes(q).len()),
        ),
{
    let qb = spec_question_bytes(q);
    let enc = spec_encode_name(q.name);
    let tb = crate::wire::spec_u16_be(crate::types::record_type_code(q.qtype));
    let cb = crate::wire::spec_u16_be(crate::types::class_code(q.qclass));
    assert(qb.len() == enc.len() + 4);
    lemma_block_sub(data, offset, qb, 0, enc.len() as int);
    assert(qb.subrange(0, enc.len() as int) =~= enc);
    assert(data.subrange(offset, offset + enc.len() as int) == enc);
    lemma_decode_encoded_name(data, offset, q.name, MAX_POINTER_JUMPS as nat);
    let n = enc.len() as int;
    lemma_block_index(data, offset, qb, n);
    lemma_block_index(data, offset, qb, n + 1);
    lemma_block_index(data, offset, qb, n + 2);
    lemma_block_index(data, offset, qb, n + 3);
    assert(qb[n] == tb[0] && qb[n + 1] == tb[1] && qb[n + 2] == cb[0] && qb[n + 3] == cb[1]);
    crate::wire::lemma_u16_be_round_trip(crate::types::record_type_code(q.qtype));
    crate::wire::lemma_u16_be_round_trip(crate::types::class_code(q.qclass));
    crate::types::lemma_record_type_code_inverse(q.qtype);
}

/// Parsing a list of serialized questions gives the list back.
proof fn lemma_parse_questions_of_encoded(data: Seq<u8>, offset: int, qs: Seq<QuestionModel>)
    requires
        forall|i: int| 0 <= i < qs.len() ==> name_wf(#[trigger] qs[i].name),
        0 <= offset,
        offset + spec_questions_bytes(qs).len() <= data.len(),
        data.subrange(offset, offset + spec_questions_bytes(qs).len() as int)
            == spec_questions_bytes(qs),
    ensures
        spec_parse_questions(data, offset, qs.len() as nat) == Ok::<
            (Seq<QuestionModel>, int),
            DnsError,
        >((qs, offset + spec_questions_bytes(qs).len())),
    decreases qs.len(),
{
    if qs.len() == 0 {
        assert(qs =~= Seq::<QuestionModel>::empty());
    } else {
        let q = qs[0];
        let qb = spec_question_bytes(q);
        let all = spec_questions_bytes(qs);
        let rest_bytes = spec_questions_bytes(qs.drop_first());
        assert(all == qb + rest_bytes);
        assert(qb.len() >= 5) by {
            assert(spec_encode_name(q.name).len() >= 1);
        }
        assert(offset < data.len());
        lemma_block_sub(data, offset, all, 0, qb.len() as int);
        assert(all.subrange(0, qb.len() as int) =~= qb);
        lemma_parse_question_of_encoded(data, offset, q);
        let off1 = offset + qb.len() as int;
        lemma_block_sub(data, offset, all, qb.len() as int, all.len() as int);
        assert(all.subrange(qb.len() as int, all.len() as int) =~= rest_bytes);
        assert forall|i: int| 0 <= i < qs.drop_first().len() implies name_wf(
            #[trigger] qs.drop_first()[i].name,
        ) by {
            assert(qs.drop_first()[i] == qs[i + 1]);
        }
        lemma_parse_questions_of_encoded(data, off1, qs.drop_first());
        assert(spec_parse_questions(data, off1, (qs.len() - 1) as nat) == Ok::<
            (Seq<QuestionModel>, int),
            DnsError,
        >((qs.drop_first(), off1 + rest_bytes.len())));
        assert(seq![q] + qs.drop_first() =~= qs);
        assert(all.len() == qb.len() + rest_bytes.len());
        assert(off1 + rest_bytes.len() == offset + all.len());
        assert(spec_parse_questions(data, offset, qs.len() as nat) == Ok::<
            (Seq<QuestionModel>, int),
            DnsError,
        >((qs, offset + spec_questions_bytes(qs).len())));
    }
}

/// Parsing one serialized record inside a larger buffer, with more records
/// allowed after it, reads it back whole.
#[verifier::rlimit(50)]
proof fn lemma_parse_answers_of_encoded(data: Seq<u8>, offset: int, rs: Seq<RecordModel>)
    requires
        forall|i: int|
            0 <= i < rs.len() ==> name_wf(#[trigger] rs[i].name) && rs[i].data.len() <= 0xFFFF,
        0 <= offset,
        offset + spec_records_bytes(rs).len() <= data.len(),
        data.subrange(offset, offset + spec_records_bytes(rs).len() as int) == spec_records_bytes(
            rs,
        ),
    ensures
        spec_parse_answers(data, offset, rs.len() as nat) == Ok::<
            (Seq<RecordModel>, int),
            DnsError,
        >((rs, offset + spec_records_bytes(rs).len())),
    decreases rs.len(),
{
    if rs.len() == 0 {
        assert(rs =~= Seq::<RecordModel>::empty());
    } else {
        let r = rs[0];
        let rb = spec_record_bytes(r);
        let enc = spec_encode_name(r.name);
        let all = spec_records_bytes(rs);
        let rest_bytes = spec_records_bytes(rs.drop_first());
        assert(all == rb + rest_bytes);
        assert(rb.len() == enc.len() + 10 + r.data.len());
        assert(enc.len() >= 1);
        assert(offset < data.len());
        lemma_block_sub(data, offset, all, 0, rb.len() as int);
        assert(all.subrange(0, rb.len() as int) =~= rb);
        let rsub = data.subrange(offset, offset + rb.len() as int);
        assert(rsub == rb);
        lemma_block_sub(data, offset, rb, 0, enc.len() as int);
        assert(rb.subrange(0, enc.len() as int) =~= enc);
        lemma_decode_encoded_name(data, offset, r.name, MAX_POINTER_JUMPS as nat);
        let n = enc.len() as int;
        let off1 = offset + n;
        let tb = crate::wire::spec_u16_be(crate::types::record_type_code(r.rtype));
        let cb = crate::wire::spec_u16_be(crate::types::class_code(r.class));
        let lb = crate::wire::spec_u32_be(r.ttl);
        let db = crate::wire::spec_u16_be(r.data.len() as u16);
        assert(rb[n] == tb[0] && rb[n + 1] == tb[1] && rb[n + 2] == cb[0] && rb[n + 3] == cb[1]);
        assert(rb[n + 4] == lb[0] && rb[n + 5] == lb[1] && rb[n + 6] == lb[2] && rb[n + 7]
            == lb[3]);
        assert(rb[n + 8] == db[0] && rb[n + 9] == db[1]);
        lemma_block_index(data, offset, rb, n);
        lemma_block_index(data, offset, rb, n + 1);
        lemma_block_index(data, offset, rb, n + 2);
        lemma_block_index(data, offset, rb, n + 3);
        lemma_block_index(data, offset, rb, n + 4);
        lemma_block_index(data, offset, rb, n + 5);
        lemma_block_index(data, offset, rb, n + 6);
        lemma_block_index(data, offset, rb, n + 7);
        lemma_block_index(data, offset, rb, n + 8);
        lemma_block_index(data, offset, rb, n + 9);
        crate::wire::lemma_u16_be_round_trip(crate::types::record_type_code(r.rtype));
        crate::wire::lemma_u16_be_round_trip(crate::types::class_code(r.class));
        crate::wire::lemma_u32_be_round_trip(r.ttl);
        crate::wire::lemma_u16_be_round_trip(r.data.len() as u16);
        crate::types::lemma_record_type_code_inverse(r.rtype);
        let off2 = off1 + 10;
        assert(spec_u16_from_be(data[off1 + 8], data[off1 + 9]) as int == r.data.len());
        lemma_block_sub(data, offset, rb, n + 10, n + 10 + r.data.len() as int);
        assert(rb.subrange(n + 10, n + 10 + r.data.len() as int) =~= r.data);
        assert(data.subrange(off2, off2 + r.data.len() as int) == r.data);
        let off3 = off2 + r.data.len() as int;
        lemma_block_sub(data, offset, all, rb.len() as int, all.len() as int);
        assert(all.subrange(rb.len() as int, all.len() as int) =~= rest_bytes);
        assert forall|i: int| 0 <= i < rs.drop_first().len() implies name_wf(
            #[trigger] rs.drop_first()[i].name,
        ) && rs.drop_first()[i].data.len() <= 0xFFFF by {
            assert(rs.drop_first()[i] == rs[i + 1]);
        }
        lemma_parse_answers_of_encoded(data, off3, rs.drop_first());
        let parsed = RecordModel {
            name: r.name,
            rtype: crate::types::spec_record_type_from_u16(
                spec_u16_from_be(data[off1], data[off1 + 1]),
            )->Some_0,
            class: crate::types::spec_class_from_u16(
                spec_u16_from_be(data[off1 + 2], data[off1 + 3]),
            )->Some_0,
            ttl: spec_u32_from_be(data[off1 + 4], data[off1 + 5], data[off1 + 6], data[off1 + 7]),
            data: data.subrange(off2, off2 + r.data.len() as int),
        };
        assert(parsed == r);
        assert(off1 + 10 <= data.len());
        assert(off2 + r.data.len() <= data.len());
        assert(spec_parse_answers(data, off3, (rs.len() - 1) as nat) == Ok::<
            (Seq<RecordModel>, int),
            DnsError,
        >((rs.drop_first(), off3 + rest_bytes.len())));
        assert(seq![r] + rs.drop_first() =~= rs);
        assert(all.len() == rb.len() + rest_bytes.len());
        assert(off3 + rest_bytes.len() == offset + all.len());
        assert(spec_parse_answers(data, offset, rs.len() as nat) == Ok::<
            (Seq<RecordModel>, int),
            DnsError,
        >((rs, offset + spec_records_bytes(rs).len())));
    }
}

/// The round trip: any well-formed message can be serialized, and parsing
/// the serialized bytes reproduces the header and every question and
/// answer field exactly.
#[verifier::rlimit(50)]
pub proof fn lemma_message_round_trip(m: MessageModel)
    requires
        message_wf(m),
    ensures
        message_encodable(m),
        spec_parse_message(spec_message_bytes(m)) == Ok::<MessageModel, DnsError>(m),
{
    assert forall|i: int| 0 <= i < m.questions.len() implies name_encodable(
        #[trigger] m.questions[i].name,
    ) by {
        lemma_name_wf_encodable(m.questions[i].name);
    }
    assert forall|i: int| 0 <= i < m.answers.len() implies record_encodable(
        #[trigger] m.answers[i],
    ) by {
        lemma_name_wf_encodable(m.answers[i].name);
    }
    let bytes = spec_message_bytes(m);
    let hb = spec_header_bytes(m.header);
    let qb = spec_questions_bytes(m.questions);
    let ab = spec_records_bytes(m.answers);
    assert(bytes =~= hb + (qb + ab));
    lemma_header_round_trip(m.header, qb + ab);
    assert(spec_parse_header(bytes) == Some(m.header));
    assert(bytes.len() >= 12);
    assert(bytes.subrange(12, 12 + qb.len() as int) =~= qb);
    lemma_parse_questions_of_encoded(bytes, 12, m.questions);
    let aoff = 12 + qb.len() as int;
    assert(bytes.subrange(aoff, aoff + ab.len() as int) =~= ab);
    lemma_parse_answers_of_encoded(bytes, aoff, m.answers);
    let parsed = spec_parse_message(bytes)->Ok_0;
    assert(m.authorities =~= Seq::<RecordModel>::empty());
    assert(m.additionals =~= Seq::<RecordModel>::empty());
    assert(parsed == m);
}

/// A message whose buffer ends right after its questions still parses,
/// whatever answer count its header declares: the answers seen are none,
/// and the rest of the message is kept.
pub proof fn lemma_truncated_answer_section(data: Seq<u8>, qs: Seq<QuestionModel>)
    requires
        data.len() >= 12,
        spec_parse_questions(
            data,
            12,
            spec_parse_header(data)->Some_0.qdcount as nat,
        ) == Ok::<(Seq<QuestionModel>, int), DnsError>((qs, data.len() as int)),
    ensures
        spec_parse_message(data) matches Ok(mm) && mm.header == spec_parse_header(data)->Some_0
            && mm.questions == qs && mm.answers.len() == 0,
{
    let h = spec_parse_header(data)->Some_0;
    assert(spec_parse_answers(data, data.len() as int, h.ancount as nat) matches Ok((ans, _))
        && ans.len() == 0);
}

/// A parsed question agrees with a parse model: the codes are equal, and
/// the printable name is the model's bytes wherever those decode as UTF-8
/// (the only case the lossy conversion pins down).
pub open spec fn question_matches(a: QuestionModel, b: QuestionModel) -> bool {
    a.qtype == b.qtype && a.qclass == b.qclass && (valid_utf8(b.name) ==> a.name == b.name)
}

/// A parsed record agrees with a parse model, in the same sense.
pub open spec fn record_matches(a: RecordModel, b: RecordModel) -> bool {
    a.rtype == b.rtype && a.class == b.class && a.ttl == b.ttl && a.data == b.data && (valid_utf8(
        b.name,
    ) ==> a.name == b.name)
}

/// A parsed message agrees with a parse model, element by element.
pub open spec fn message_matches(a: MessageModel, b: MessageModel) -> bool {
    &&& a.header == b.header
    &&& a.questions.len() == b.questions.len()
    &&& forall|i: int|
        0 <= i < a.questions.len() ==> question_matches(
            #[trigger] a.questions[i],
            b.questions[i],
        )
    &&& a.answers.len() == b.answers.len()
    &&& forall|i: int|
        0 <= i < a.answers.len() ==> record_matches(#[trigger] a.answers[i], b.answers[i])
    &&& a.authorities.len() == 0
    &&& a.additionals.len() == 0
}

impl DnsMessage {
    /// An empty message under a fresh query header.
    pub fn new() -> (r: Self)
        ensures
            r.header == (DnsHeader {
                id: r.header.id,
                qr: false,
                opcode: 0,
                aa: false,
                tc: false,
                rd: true,
                ra: false,
                z: 0,
                rcode: 0,
                qdcount: 0,
                ancount: 0,
                nscount: 0,
                arcount: 0,
            }),
            r.questions@.len() == 0,
            r.answers@.len() == 0,
            r.authorities@.len() == 0,
            r.additionals@.len() == 0,
    {
        DnsMessage {
            header: DnsHeader::new(),
            questions: Vec::new(),
            answers: Vec::new(),
            authorities: Vec::new(),
            additionals: Vec::new(),
        }
    }

    /// A query for one name: fresh header with recursion desired, one
    /// question, qdcount set to one.
    pub fn new_query(name: String, qtype: DnsRecordType) -> (r: Self)
        ensures
            r.header == (DnsHeader {
                id: r.header.id,
                qr: false,
                opcode: 0,
                aa: false,
                tc: false,
                rd: true,
                ra: false,
                z: 0,
                rcode: 0,
                qdcount: 1,
                ancount: 0,
                nscount: 0,
                arcount: 0,
            }),
            r.questions@.len() == 1,
            r.questions@[0].name == name,
            r.questions@[0].qtype == qtype,
            r.questions@[0].qclass == DnsClass::IN,
            r.answers@.len() == 0,
            r.authorities@.len() == 0,
            r.additionals@.len() == 0,
    {
        let mut message = Self::new();
        message.header.qdcount = 1;
        message.questions.push(DnsQuestion::new(name, qtype));
        message
    }

    /// The response shell for a query: same header with the response and
    /// recursion-available bits set, the questions kept, and the answer,
    /// authority and additional sections cleared. The answer count is not
    /// reset here; the caller keeps it consistent while appending answers.
    pub fn new_response(query: &DnsMessage) -> (r: Self)
        ensures
            r.header == (DnsHeader { qr: true, ra: true, ..query.header }),
            r.questions@ == query.questions@,
            r.answers@.len() == 0,
            r.authorities@.len() == 0,
            r.additionals@.len() == 0,
    {
        let mut questions: Vec<DnsQuestion> = Vec::new();
        let mut i: usize = 0;
        while i < query.questions.len()
            invariant
                i <= query.questions@.len(),
                questions@ =~= query.questions@.subrange(0, i as int),
            decreases query.questions@.len() - i,
        {
            let q = &query.questions[i];
            questions.push(DnsQuestion { name: q.name.clone(), qtype: q.qtype, qclass: q.qclass });
            i = i + 1;
            assert(questions@ =~= query.questions@.subrange(0, i as int));
        }
        assert(questions@ =~= query.questions@);
        DnsMessage {
            header: DnsHeader { qr: true, ra: true, ..query.header },
            questions,
            answers: Vec::new(),
            authorities: Vec::new(),
            additionals: Vec::new(),
        }
    }

    /// The wire bytes of the whole message: header, then each question,
    /// then each answer, in order. Fails, rather than truncating, if a
    /// name or a record cannot be encoded.
    pub fn to_bytes(&self) -> (r: Result<Vec<u8>, DnsError>)
        ensures
            match r {
                Ok(v) => message_encodable(self@) && v@ == spec_message_bytes(self@),
                Err(e) => !message_encodable(self@) && e == DnsError::ParseError,
            },
    {
        let ghost qs = self@.questions;
        let ghost rs = self@.answers;
        let mut bytes = self.header.to_bytes();
        let ghost head = bytes@;
        let mut i: usize = 0;
        while i < self.questions.len()
            invariant
                i <= self.questions@.len(),
                qs == self.questions@.map_values(|q: DnsQuestion| q@),
                head == spec_header_bytes(self.header),
                bytes@ == head + spec_questions_bytes(qs.take(i as int)),
                forall|k: int| 0 <= k < i ==> name_encodable(#[trigger] qs[k].name),
            decreases self.questions@.len() - i,
        {
            let q = &self.questions[i];
            match q.to_bytes() {
                Ok(mut qb) => {
                    proof {
                        assert(qs[i as int] == q@);
                        lemma_questions_bytes_push(qs.take(i as int), q@);
                        assert(qs.take(i as int).push(q@) =~= qs.take(i as int + 1));
                    }
                    bytes.append(&mut qb);
                },
                Err(_) => {
                    proof {
                        assert(qs[i as int] == q@);
                        assert(!questions_encodable(qs));
                    }
                    return Err(DnsError::ParseError);
                },
            }
            i = i + 1;
        }
        assert(qs.take(qs.len() as int) =~= qs);
        let ghost qpart = bytes@;
        let mut j: usize = 0;
        while j < self.answers.len()
            invariant
                j <= self.answers@.len(),
                rs == self.answers@.map_values(|r: DnsRecord| r@),
                qpart == spec_header_bytes(self.header) + spec_questions_bytes(qs),
                bytes@ == qpart + spec_records_bytes(rs.take(j as int)),
                forall|k: int| 0 <= k < j ==> record_encodable(#[trigger] rs[k]),
            decreases self.answers@.len() - j,
        {
            let a = &self.answers[j];
            match a.to_bytes() {
                Ok(mut ab) => {
                    proof {
                        assert(rs[j as int] == a@);
                        lemma_records_bytes_push(rs.take(j as int), a@);
                        assert(rs.take(j as int).push(a@) =~= rs.take(j as int + 1));
                    }
                    bytes.append(&mut ab);
                },
                Err(_) => {
                    proof {
                        assert(rs[j as int] == a@);
                        assert(!records_encodable(rs));
                    }
                    return Err(DnsError::ParseError);
                },
            }
            j = j + 1;
        }
        assert(rs.take(rs.len() as int) =~= rs);
        assert(bytes@ =~= spec_message_bytes(self@));
        Ok(bytes)
    }

    /// Parses a whole buffer: the header, exactly `qdcount` questions,
    /// then up to `ancount` answers. Question-section errors are fatal.
    /// The answer section keeps whatever full records were readable and
    /// stops early where the buffer runs out, even inside a record's
    /// name; a readable record whose type or class code is outside the
    /// closed sets is an unsupported-code failure.
    pub fn from_bytes(data: &[u8]) -> (r: Result<Self, DnsError>)
        ensures
            match r {
                Ok(m) => spec_parse_message(data@) matches Ok(mm) && message_matches(m@, mm),
                Err(e) => spec_parse_message(data@) == Err::<MessageModel, DnsError>(e),
            },
    {
        if data.len() < 12 {
            return Err(DnsError::ParseError);
        }
        let header = match DnsHeader::from_bytes(data) {
            Ok(h) => h,
            Err(e) => {
                return Err(e);
            },
        };
        let mut offset: usize = 12;
        let mut questions: Vec<DnsQuestion> = Vec::new();
        let ghost mut qmodels: Seq<QuestionModel> = Seq::empty();
        proof {
            assert(qmodels + spec_parse_questions(
                data@,
                12,
                header.qdcount as nat,
            )->Ok_0.0 =~= spec_parse_questions(data@, 12, header.qdcount as nat)->Ok_0.0);
        }
        let mut i: u16 = 0;
        while i < header.qdcount
            invariant
                i <= header.qdcount,
                12 <= data@.len(),
                offset <= data@.len(),
                spec_parse_header(data@) == Some(header),
                questions@.len() == i as int,
                qmodels.len() == i as int,
                forall|k: int|
                    0 <= k < i as int ==> question_matches(
                        #[trigger] questions@[k]@,
                        qmodels[k],
                    ),
                match spec_parse_questions(data@, offset as int, (header.qdcount - i) as nat) {
                    Ok((rest, end)) => spec_parse_questions(data@, 12, header.qdcount as nat)
                        == Ok::<(Seq<QuestionModel>, int), DnsError>((qmodels + rest, end)),
                    Err(e) => spec_parse_questions(data@, 12, header.qdcount as nat) == Err::<
                        (Seq<QuestionModel>, int),
                        DnsError,
                    >(e),
                },
            decreases header.qdcount - i,
        {
            let ghost rem = (header.qdcount - i) as nat;
            if offset >= data.len() {
                return Err(DnsError::ParseError);
            }
            let ghost off0 = offset as int;
            let name = match DnsQuestion::decode_name(data, &mut offset) {
                Ok(nm) => nm,
                Err(e) => {
                    return Err(e);
                },
            };
            let ghost nb = spec_decode_name(data@, off0, MAX_POINTER_JUMPS as nat)->Some_0.0;
            if data.len() - offset < 4 {
                return Err(DnsError::ParseError);
            }
            let qtype_num = read_u16_be(data, offset);
            let qclass_num = read_u16_be(data, offset + 2);
            let qtype = match DnsRecordType::from_u16(qtype_num) {
                Some(t) => t,
                None => {
                    return Err(DnsError::UnsupportedCode);
                },
            };
            let qclass = match DnsClass::from_u16(qclass_num) {
                Some(c) => c,
                None => {
                    return Err(DnsError::UnsupportedCode);
                },
            };
            offset = offset + 4;
            let ghost qm = QuestionModel { name: nb, qtype, qclass };
            proof {
                assert(spec_parse_question(data@, off0) == Ok::<(QuestionModel, int), DnsError>(
                    (qm, offset as int),
                ));
                let rest1 = spec_parse_questions(data@, offset as int, (rem - 1) as nat);
                if rest1 is Ok {
                    assert(qmodels + (seq![qm] + rest1->Ok_0.0) =~= qmodels.push(qm)
                        + rest1->Ok_0.0);
                }
                qmodels = qmodels.push(qm);
            }
            let question = DnsQuestion { name, qtype, qclass };
            proof {
                if valid_utf8(qm.name) {
                    vstd::utf8::decode_utf8_encode_utf8(qm.name);
                }
                assert(question_matches(question@, qm));
            }
            questions.push(question);
            i = i + 1;
        }
        proof {
            assert(qmodels + Seq::<QuestionModel>::empty() =~= qmodels);
        }
        let ghost qmods = qmodels;
        let ghost qend = offset as int;
        assert(spec_parse_questions(data@, 12, header.qdcount as nat) == Ok::<
            (Seq<QuestionModel>, int),
            DnsError,
        >((qmods, qend)));

        let mut answers: Vec<DnsRecord> = Vec::new();
        let ghost mut amodels: Seq<RecordModel> = Seq::empty();
        let mut j: u16 = 0;
        while j < header.ancount
            invariant_except_break
                j <= header.ancount,
                12 <= data@.len(),
                offset <= data@.len(),
                spec_parse_header(data@) == Some(header),
                spec_parse_questions(data@, 12, header.qdcount as nat) == Ok::<
                    (Seq<QuestionModel>, int),
                    DnsError,
                >((qmods, qend)),
                answers@.len() == amodels.len(),
                forall|k: int|
                    0 <= k < amodels.len() ==> record_matches(
                        #[trigger] answers@[k]@,
                        amodels[k],
                    ),
                match spec_parse_answers(data@, offset as int, (header.ancount - j) as nat) {
                    Ok((rest, end)) => spec_parse_answers(data@, qend, header.ancount as nat)
                        == Ok::<(Seq<RecordModel>, int), DnsError>((amodels + rest, end)),
                    Err(e) => spec_parse_answers(data@, qend, header.ancount as nat) == Err::<
                        (Seq<RecordModel>, int),
                        DnsError,
                    >(e),
                },
            ensures
                spec_parse_answers(data@, qend, header.ancount as nat) == Ok::<
                    (Seq<RecordModel>, int),
                    DnsError,
                >((amodels, spec_parse_answers(data@, qend, header.ancount as nat)->Ok_0.1)),
                answers@.len() == amodels.len(),
                forall|k: int|
                    0 <= k < amodels.len() ==> record_matches(
                        #[trigger] answers@[k]@,
                        amodels[k],
                    ),
            decreases header.ancount - j,
        {
            let ghost rem = (header.ancount - j) as nat;
            if offset >= data.len() {
                proof {
                    assert(amodels + Seq::<RecordModel>::empty() =~= amodels);
                }
                break ;
            }
            let ghost off0 = offset as int;
            let name = match DnsQuestion::decode_name(data, &mut offset) {
                Ok(nm) => nm,
                Err(_) => {
                    // A name that cannot be read in full ends the answer
                    // section; the answers already read are kept.
                    proof {
                        assert(amodels + Seq::<RecordModel>::empty() =~= amodels);
                    }
                    break ;
                },
            };
            let ghost nb = spec_decode_name(data@, off0, MAX_POINTER_JUMPS as nat)->Some_0.0;
            if data.len() - offset < 10 {
                proof {
                    assert(amodels + Seq::<RecordModel>::empty() =~= amodels);
                }
                break ;
            }
            let rtype_num = read_u16_be(data, offset);
            let class_num = read_u16_be(data, offset + 2);
            let ttl = read_u32_be(data, offset + 4);
            let rdlength = read_u16_be(data, offset + 8);
            offset = offset + 10;
            if (rdlength as usize) > data.len() - offset {
                proof {
                    assert(amodels + Seq::<RecordModel>::empty() =~= amodels);
                }
                break ;
            }
            let ghost off2 = offset as int;
            let mut rdata: Vec<u8> = Vec::new();
            crate::name::push_byte_range(&mut rdata, data, offset, offset + rdlength as usize);
            assert(rdata@ =~= data@.subrange(off2, off2 + rdlength as int));
            offset = offset + rdlength as usize;
            let rtype_opt = DnsRecordType::from_u16(rtype_num);
            let class_opt = DnsClass::from_u16(class_num);
            if rtype_opt.is_none() || class_opt.is_none() {
                // A fully readable record with a code outside the closed
                // sets is rejected, never silently accepted.
                return Err(DnsError::UnsupportedCode);
            }
            let rtype = rtype_opt.unwrap();
            let class = class_opt.unwrap();
            let ghost rest1 = spec_parse_answers(data@, offset as int, (rem - 1) as nat);
            let ghost rm = RecordModel {
                name: nb,
                rtype,
                class,
                ttl,
                data: data@.subrange(off2, off2 + rdlength as int),
            };
            proof {
                if rest1 is Ok {
                    assert(amodels + (seq![rm] + rest1->Ok_0.0) =~= amodels.push(rm)
                        + rest1->Ok_0.0);
                }
                amodels = amodels.push(rm);
            }
            let record = DnsRecord { name, rtype, class, ttl, data: rdata };
            proof {
                if valid_utf8(rm.name) {
                    vstd::utf8::decode_utf8_encode_utf8(rm.name);
                }
                assert(record@.data =~= rm.data);
                assert(record_matches(record@, rm));
            }
            answers.push(record);
            j = j + 1;
        }

        let message = DnsMessage {
            header,
            questions,
            answers,
            authorities: Vec::new(),
            additionals: Vec::new(),
        };
        proof {
            let mm = spec_parse_message(data@)->Ok_0;
            assert(spec_parse_message(data@) == Ok::<MessageModel, DnsError>(
                MessageModel {
                    header,
                    questions: qmods,
                    answers: amodels,
                    authorities: Seq::empty(),
                    additionals: Seq::empty(),
                },
            ));
            assert forall|k: int| 0 <= k < qmods.len() implies question_matches(
                #[trigger] message@.questions[k],
                mm.questions[k],
            ) by {
                assert(message@.questions[k] == questions@[k]@);
            }
            assert forall|k: int| 0 <= k < amodels.len() implies record_matches(
                #[trigger] message@.answers[k],
                mm.answers[k],
            ) by {
                assert(message@.answers[k] == answers@[k]@);
            }
            assert(message_matches(message@, mm));
        }
        Ok(message)
    }
}

} // verus!
