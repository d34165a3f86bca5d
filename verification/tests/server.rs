//! The name table and the server's per-datagram decision function.

use dns_client_server::DnsMessage;
use dns_client_server::DnsQuestion;
use dns_client_server::DnsRecordType;
use dns_client_server::Ipv4Address;
use dns_client_server::SimpleDnsDatabase;
use dns_client_server::handle_packet;

#[test]
fn lookup_seed_entries() {
    let db = SimpleDnsDatabase::new();
    assert_eq!(db.lookup("localhost"), Some(Ipv4Address::new(127, 0, 0, 1)));
    assert_eq!(
        db.lookup("test.local"),
        Some(Ipv4Address::new(192, 168, 1, 100))
    );
    assert_eq!(
        db.lookup("server.local"),
        Some(Ipv4Address::new(192, 168, 1, 1))
    );
    assert_eq!(
        db.lookup("example.com"),
        Some(Ipv4Address::new(93, 184, 216, 34))
    );
    assert_eq!(
        db.lookup("google.com"),
        Some(Ipv4Address::new(8, 8, 8, 8))
    );
    assert_eq!(db.lookup("doesnotexist.tld"), None);
}

#[test]
fn lookup_is_case_insensitive() {
    let db = SimpleDnsDatabase::new();
    assert_eq!(db.lookup("LOCALHOST"), Some(Ipv4Address::new(127, 0, 0, 1)));
    assert_eq!(
        db.lookup("Google.COM"),
        Some(Ipv4Address::new(8, 8, 8, 8))
    );
}

#[test]
fn add_record_lowercases_and_overwrites() {
    let mut db = SimpleDnsDatabase::new();
    let before = db.list_records().len();
    db.add_record("Printer.Local".to_string(), Ipv4Address::new(10, 0, 0, 9));
    assert_eq!(
        db.lookup("printer.local"),
        Some(Ipv4Address::new(10, 0, 0, 9))
    );
    assert_eq!(db.list_records().len(), before + 1);
    db.add_record("PRINTER.LOCAL".to_string(), Ipv4Address::new(10, 0, 0, 10));
    assert_eq!(
        db.lookup("printer.local"),
        Some(Ipv4Address::new(10, 0, 0, 10))
    );
    assert_eq!(db.list_records().len(), before + 1);
}

#[test]
fn query_for_seeded_name_yields_one_answer() {
    let db = SimpleDnsDatabase::new();
    let query = DnsMessage::new_query("localhost".to_string(), DnsRecordType::A);
    let reply_bytes = handle_packet(&query.to_bytes().unwrap(), &db).unwrap();
    let reply = DnsMessage::from_bytes(&reply_bytes).unwrap();

    assert!(reply.header.qr);
    assert!(reply.header.ra);
    assert_eq!(reply.header.id, query.header.id);
    assert_eq!(reply.header.rcode, 0);
    assert_eq!(reply.header.ancount, 1);
    assert_eq!(reply.answers.len(), 1);
    assert_eq!(reply.answers[0].name, "localhost");
    assert_eq!(reply.answers[0].ttl, 300);
    assert_eq!(
        reply.answers[0].get_ip(),
        Some(Ipv4Address::new(127, 0, 0, 1))
    );
}

#[test]
fn query_for_absent_name_yields_nxdomain() {
    let db = SimpleDnsDatabase::new();
    let query = DnsMessage::new_query("doesnotexist.tld".to_string(), DnsRecordType::A);
    let reply_bytes = handle_packet(&query.to_bytes().unwrap(), &db).unwrap();
    let reply = DnsMessage::from_bytes(&reply_bytes).unwrap();

    assert_eq!(reply.header.rcode, 3);
    assert_eq!(reply.header.ancount, 0);
    assert!(reply.answers.is_empty());
}

#[test]
fn query_for_unsupported_type_yields_notimp() {
    let db = SimpleDnsDatabase::new();
    let query = DnsMessage::new_query("localhost".to_string(), DnsRecordType::MX);
    let reply_bytes = handle_packet(&query.to_bytes().unwrap(), &db).unwrap();
    let reply = DnsMessage::from_bytes(&reply_bytes).unwrap();

    assert_eq!(reply.header.rcode, 4);
    assert_eq!(reply.header.ancount, 0);
    assert!(reply.answers.is_empty());
}

#[test]
fn later_question_outcome_overwrites_rcode() {
    // With several questions the single response code keeps only the last
    // question's outcome, while earlier answers stay in the answer list.
    let db = SimpleDnsDatabase::new();
    let mut query = DnsMessage::new_query("localhost".to_string(), DnsRecordType::A);
    query.header.qdcount = 2;
    query
        .questions
        .push(DnsQuestion::new("doesnotexist.tld".to_string(), DnsRecordType::A));
    let reply_bytes = handle_packet(&query.to_bytes().unwrap(), &db).unwrap();
    let reply = DnsMessage::from_bytes(&reply_bytes).unwrap();

    assert_eq!(reply.header.rcode, 3);
    assert_eq!(reply.header.ancount, 1);
    assert_eq!(reply.answers.len(), 1);
    assert_eq!(
        reply.answers[0].get_ip(),
        Some(Ipv4Address::new(127, 0, 0, 1))
    );
}

#[test]
fn malformed_packet_is_dropped() {
    let db = SimpleDnsDatabase::new();
    assert!(handle_packet(&[1, 2, 3], &db).is_none());
}

#[test]
fn unparseable_question_is_dropped() {
    let db = SimpleDnsDatabase::new();
    // A 12-byte header declaring one question, with no question bytes.
    let mut query = DnsMessage::new_query("x".to_string(), DnsRecordType::A);
    query.questions.clear();
    let bytes = query.header.to_bytes();
    assert!(handle_packet(&bytes, &db).is_none());
}
