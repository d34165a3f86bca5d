//! Whole messages: serialization, parsing, the round trip, and the lenient
//! answer section.

use dns_client_server::DnsClass;
use dns_client_server::DnsError;
use dns_client_server::DnsMessage;
use dns_client_server::DnsRecord;
use dns_client_server::DnsRecordType;
use dns_client_server::Ipv4Address;

#[test]
fn record_type_codes_round_trip() {
    let cases = vec![
        (1u16, DnsRecordType::A),
        (2, DnsRecordType::NS),
        (5, DnsRecordType::CNAME),
        (12, DnsRecordType::PTR),
        (15, DnsRecordType::MX),
        (28, DnsRecordType::AAAA),
    ];
    for (code, rtype) in cases {
        assert_eq!(DnsRecordType::from_u16(code), Some(rtype));
        assert_eq!(rtype.to_u16(), code);
    }
    assert_eq!(DnsRecordType::from_u16(0), None);
    assert_eq!(DnsRecordType::from_u16(99), None);
}

#[test]
fn class_codes_round_trip() {
    assert_eq!(DnsClass::from_u16(1), Some(DnsClass::IN));
    assert_eq!(DnsClass::from_u16(2), None);
    assert_eq!(DnsClass::IN.to_u16(), 1);
}

#[test]
fn new_query_shape() {
    let query = DnsMessage::new_query("example.com".to_string(), DnsRecordType::A);
    assert!(!query.header.qr);
    assert!(query.header.rd);
    assert_eq!(query.header.qdcount, 1);
    assert_eq!(query.header.ancount, 0);
    assert_eq!(query.questions.len(), 1);
    assert_eq!(query.questions[0].name, "example.com");
    assert_eq!(query.questions[0].qtype, DnsRecordType::A);
    assert_eq!(query.questions[0].qclass, DnsClass::IN);
    assert!(query.answers.is_empty());
}

#[test]
fn new_response_keeps_header_and_questions() {
    let query = DnsMessage::new_query("example.com".to_string(), DnsRecordType::MX);
    let response = DnsMessage::new_response(&query);
    assert!(response.header.qr);
    assert!(response.header.ra);
    assert_eq!(response.header.id, query.header.id);
    assert_eq!(response.header.qdcount, 1);
    assert_eq!(response.questions.len(), 1);
    assert_eq!(response.questions[0].name, "example.com");
    assert!(response.answers.is_empty());
    assert!(response.authorities.is_empty());
    assert!(response.additionals.is_empty());
}

#[test]
fn message_round_trip_with_answer() {
    let mut message = DnsMessage::new_query("example.com".to_string(), DnsRecordType::A);
    message.header.ancount = 1;
    message.answers.push(DnsRecord::new_a_record(
        "example.com".to_string(),
        Ipv4Address::new(93, 184, 216, 34),
        300,
    ));
    let bytes = message.to_bytes().unwrap();
    let parsed = DnsMessage::from_bytes(&bytes).unwrap();

    assert_eq!(parsed.header, message.header);
    assert_eq!(parsed.questions.len(), 1);
    assert_eq!(parsed.questions[0].name, "example.com");
    assert_eq!(parsed.questions[0].qtype, DnsRecordType::A);
    assert_eq!(parsed.questions[0].qclass, DnsClass::IN);
    assert_eq!(parsed.answers.len(), 1);
    assert_eq!(parsed.answers[0].name, "example.com");
    assert_eq!(parsed.answers[0].rtype, DnsRecordType::A);
    assert_eq!(parsed.answers[0].class, DnsClass::IN);
    assert_eq!(parsed.answers[0].ttl, 300);
    assert_eq!(parsed.answers[0].data, vec![93, 184, 216, 34]);
    assert!(parsed.authorities.is_empty());
    assert!(parsed.additionals.is_empty());
}

#[test]
fn message_round_trip_several_questions() {
    let mut message = DnsMessage::new_query("a.example".to_string(), DnsRecordType::AAAA);
    message.header.qdcount = 2;
    message.questions.push(dns_client_server::DnsQuestion::new(
        "b.example".to_string(),
        DnsRecordType::NS,
    ));
    let bytes = message.to_bytes().unwrap();
    let parsed = DnsMessage::from_bytes(&bytes).unwrap();
    assert_eq!(parsed.questions.len(), 2);
    assert_eq!(parsed.questions[0].name, "a.example");
    assert_eq!(parsed.questions[0].qtype, DnsRecordType::AAAA);
    assert_eq!(parsed.questions[1].name, "b.example");
    assert_eq!(parsed.questions[1].qtype, DnsRecordType::NS);
}

#[test]
fn to_bytes_fails_on_unencodable_name() {
    let message = DnsMessage::new_query("a".repeat(64), DnsRecordType::A);
    assert_eq!(message.to_bytes(), Err(DnsError::ParseError));
}

#[test]
fn from_bytes_short_buffer_fails() {
    assert_eq!(
        DnsMessage::from_bytes(&[0u8; 5]).unwrap_err(),
        DnsError::ParseError
    );
}

#[test]
fn from_bytes_unknown_question_type_fails() {
    let query = DnsMessage::new_query("x.y".to_string(), DnsRecordType::A);
    let mut bytes = query.to_bytes().unwrap();
    // The question's type is the third- and fourth-to-last bytes; 99 is in
    // no closed set.
    let n = bytes.len();
    bytes[n - 4] = 0;
    bytes[n - 3] = 99;
    assert_eq!(
        DnsMessage::from_bytes(&bytes).unwrap_err(),
        DnsError::UnsupportedCode
    );
}

#[test]
fn from_bytes_unknown_question_class_fails() {
    let query = DnsMessage::new_query("x.y".to_string(), DnsRecordType::A);
    let mut bytes = query.to_bytes().unwrap();
    let n = bytes.len();
    bytes[n - 1] = 2;
    assert_eq!(
        DnsMessage::from_bytes(&bytes).unwrap_err(),
        DnsError::UnsupportedCode
    );
}

#[test]
fn truncated_answer_section_parses_with_no_answers() {
    // The header declares one answer, but the buffer ends after the
    // question: parsing succeeds and keeps what was readable.
    let mut query = DnsMessage::new_query("example.com".to_string(), DnsRecordType::A);
    query.header.ancount = 1;
    let mut bytes = query.header.to_bytes();
    bytes.extend(query.questions[0].to_bytes().unwrap());
    let parsed = DnsMessage::from_bytes(&bytes).unwrap();
    assert_eq!(parsed.header.ancount, 1);
    assert_eq!(parsed.questions.len(), 1);
    assert_eq!(parsed.answers.len(), 0);
}

#[test]
fn answer_truncated_mid_record_keeps_earlier_answers() {
    // Two answers declared; the second record's fixed fields are cut off.
    let mut message = DnsMessage::new_query("example.com".to_string(), DnsRecordType::A);
    message.header.ancount = 2;
    message.answers.push(DnsRecord::new_a_record(
        "example.com".to_string(),
        Ipv4Address::new(1, 2, 3, 4),
        60,
    ));
    let mut bytes = message.to_bytes().unwrap();
    // A second answer's name begins, but nothing more follows.
    bytes.extend(vec![1, b'x', 0]);
    let parsed = DnsMessage::from_bytes(&bytes).unwrap();
    assert_eq!(parsed.answers.len(), 1);
    assert_eq!(parsed.answers[0].data, vec![1, 2, 3, 4]);
}

#[test]
fn answer_with_unknown_type_fails() {
    let mut message = DnsMessage::new_query("example.com".to_string(), DnsRecordType::A);
    message.header.ancount = 1;
    message.answers.push(DnsRecord::new_a_record(
        "example.com".to_string(),
        Ipv4Address::new(1, 2, 3, 4),
        60,
    ));
    let mut bytes = message.to_bytes().unwrap();
    // Overwrite the answer's type field (type, class, ttl, length and 4
    // data bytes follow the name, so it sits 14 bytes before the end).
    // 200 is in no closed set, and the record is fully readable, so the
    // code is rejected rather than silently accepted.
    let n = bytes.len();
    bytes[n - 14] = 0;
    bytes[n - 13] = 200;
    assert_eq!(
        DnsMessage::from_bytes(&bytes).unwrap_err(),
        DnsError::UnsupportedCode
    );
}

#[test]
fn answer_with_unknown_class_fails() {
    let mut message = DnsMessage::new_query("example.com".to_string(), DnsRecordType::A);
    message.header.ancount = 1;
    message.answers.push(DnsRecord::new_a_record(
        "example.com".to_string(),
        Ipv4Address::new(1, 2, 3, 4),
        60,
    ));
    let mut bytes = message.to_bytes().unwrap();
    // The class field follows the type field, 12 bytes before the end;
    // 7 is in no closed set.
    let n = bytes.len();
    bytes[n - 11] = 7;
    assert_eq!(
        DnsMessage::from_bytes(&bytes).unwrap_err(),
        DnsError::UnsupportedCode
    );
}

#[test]
fn answer_truncated_mid_name_keeps_earlier_answers() {
    // The second answer's name itself is cut off by the end of the
    // buffer: the parse still succeeds with the answers already read.
    let mut message = DnsMessage::new_query("example.com".to_string(), DnsRecordType::A);
    message.header.ancount = 2;
    message.answers.push(DnsRecord::new_a_record(
        "example.com".to_string(),
        Ipv4Address::new(1, 2, 3, 4),
        60,
    ));
    let mut bytes = message.to_bytes().unwrap();
    // A label of declared length 1 with its byte, and then nothing: no
    // terminator ever comes.
    bytes.extend(vec![1, b'a']);
    let parsed = DnsMessage::from_bytes(&bytes).unwrap();
    assert_eq!(parsed.answers.len(), 1);
    assert_eq!(parsed.answers[0].data, vec![1, 2, 3, 4]);
}

#[test]
fn answer_name_truncated_with_no_answers_read() {
    // Valid header and question, then an answer section that is only a
    // cut-off name: a successful parse with zero answers, not a failure.
    let mut query = DnsMessage::new_query("example.com".to_string(), DnsRecordType::A);
    query.header.ancount = 1;
    let mut bytes = query.header.to_bytes();
    bytes.extend(query.questions[0].to_bytes().unwrap());
    bytes.extend(vec![1, b'a']);
    let parsed = DnsMessage::from_bytes(&bytes).unwrap();
    assert_eq!(parsed.questions.len(), 1);
    assert_eq!(parsed.answers.len(), 0);
}

#[test]
fn get_ip_reads_a_record_data() {
    let record = DnsRecord::new_a_record(
        "h.example".to_string(),
        Ipv4Address::new(10, 0, 0, 7),
        120,
    );
    assert_eq!(record.get_ip(), Some(Ipv4Address::new(10, 0, 0, 7)));

    let mut other = record.clone();
    other.rtype = DnsRecordType::CNAME;
    assert_eq!(other.get_ip(), None);

    let mut short = record.clone();
    short.data = vec![1, 2, 3];
    assert_eq!(short.get_ip(), None);
}
