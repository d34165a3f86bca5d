//! The header and name codecs on concrete wire bytes.

use dns_client_server::DnsError;
use dns_client_server::DnsHeader;
use dns_client_server::DnsQuestion;

#[test]
fn encode_name_google_com() {
    let encoded = DnsQuestion::encode_name("google.com").unwrap();
    assert_eq!(
        encoded,
        vec![6, b'g', b'o', b'o', b'g', b'l', b'e', 3, b'c', b'o', b'm', 0]
    );
}

#[test]
fn decode_name_google_com() {
    let bytes = vec![6, b'g', b'o', b'o', b'g', b'l', b'e', 3, b'c', b'o', b'm', 0];
    let mut offset: usize = 0;
    let name = DnsQuestion::decode_name(&bytes, &mut offset).unwrap();
    assert_eq!(name, "google.com");
    assert_eq!(offset, 12);
}

#[test]
fn encode_name_single_label() {
    let encoded = DnsQuestion::encode_name("localhost").unwrap();
    assert_eq!(
        encoded,
        vec![9, b'l', b'o', b'c', b'a', b'l', b'h', b'o', b's', b't', 0]
    );
}

#[test]
fn encode_name_label_of_63_bytes_succeeds() {
    let name = "a".repeat(63);
    let encoded = DnsQuestion::encode_name(&name).unwrap();
    assert_eq!(encoded.len(), 65);
    assert_eq!(encoded[0], 63);
    assert_eq!(encoded[64], 0);
}

#[test]
fn encode_name_label_of_64_bytes_fails() {
    let name = "a".repeat(64);
    assert_eq!(
        DnsQuestion::encode_name(&name),
        Err(DnsError::ParseError)
    );
}

#[test]
fn encode_name_long_middle_label_fails() {
    let name = format!("www.{}.com", "b".repeat(64));
    assert_eq!(
        DnsQuestion::encode_name(&name),
        Err(DnsError::ParseError)
    );
}

#[test]
fn decode_name_round_trip_via_question_bytes() {
    let encoded = DnsQuestion::encode_name("mail.example.org").unwrap();
    let mut offset: usize = 0;
    let name = DnsQuestion::decode_name(&encoded, &mut offset).unwrap();
    assert_eq!(name, "mail.example.org");
    assert_eq!(offset, encoded.len());
}

#[test]
fn decode_name_with_compression_pointer() {
    // "google.com" at offset 0, then "www" + a pointer back to offset 0.
    let mut bytes = vec![6, b'g', b'o', b'o', b'g', b'l', b'e', 3, b'c', b'o', b'm', 0];
    bytes.extend(vec![3, b'w', b'w', b'w', 0xC0, 0x00]);
    let mut offset: usize = 12;
    let name = DnsQuestion::decode_name(&bytes, &mut offset).unwrap();
    assert_eq!(name, "www.google.com");
    // The cursor lands two bytes past the first pointer.
    assert_eq!(offset, 18);
}

#[test]
fn decode_name_chained_pointers_keep_first_cursor() {
    // "com" at 0; "example" + a pointer to 0 at 4; "www" + a pointer to 4
    // at 14. Only the first pointer fixes the returned cursor.
    let mut bytes = vec![3, b'c', b'o', b'm', 0];
    bytes.extend(vec![7, b'e', b'x', b'a', b'm', b'p', b'l', b'e', 0xC0, 0x00]);
    bytes.extend(vec![3, b'w', b'w', b'w', 0xC0, 0x05]);
    let mut offset: usize = 15;
    let name = DnsQuestion::decode_name(&bytes, &mut offset).unwrap();
    assert_eq!(name, "www.example.com");
    assert_eq!(offset, 21);
}

#[test]
fn decode_name_pointer_loop_fails() {
    // A pointer that points at itself would loop forever without the jump
    // bound.
    let bytes = vec![0xC0, 0x00];
    let mut offset: usize = 0;
    assert_eq!(
        DnsQuestion::decode_name(&bytes, &mut offset),
        Err(DnsError::ParseError)
    );
    assert_eq!(offset, 0);
}

#[test]
fn decode_name_pointer_past_end_fails() {
    let bytes = vec![0xC0, 0x10];
    let mut offset: usize = 0;
    assert_eq!(
        DnsQuestion::decode_name(&bytes, &mut offset),
        Err(DnsError::ParseError)
    );
}

#[test]
fn decode_name_truncated_pointer_fails() {
    let bytes = vec![0xC0];
    let mut offset: usize = 0;
    assert_eq!(
        DnsQuestion::decode_name(&bytes, &mut offset),
        Err(DnsError::ParseError)
    );
}

#[test]
fn decode_name_truncated_label_fails() {
    let bytes = vec![5, b'a', b'b'];
    let mut offset: usize = 0;
    assert_eq!(
        DnsQuestion::decode_name(&bytes, &mut offset),
        Err(DnsError::ParseError)
    );
}

#[test]
fn decode_name_missing_terminator_fails() {
    let bytes = vec![1, b'a'];
    let mut offset: usize = 0;
    assert_eq!(
        DnsQuestion::decode_name(&bytes, &mut offset),
        Err(DnsError::ParseError)
    );
}

#[test]
fn header_flag_bytes_qr_rd_rcode3() {
    // qr and rd set with rcode 3 give the first flag byte 0x81 and the
    // low bits 0x03; the 0x80 of the second byte is the
    // recursion-available bit.
    let mut header = DnsHeader::new();
    header.id = 0x1234;
    header.qr = true;
    header.rd = true;
    header.ra = false;
    header.rcode = 3;
    let bytes = header.to_bytes();
    assert_eq!(bytes.len(), 12);
    assert_eq!(bytes[0], 0x12);
    assert_eq!(bytes[1], 0x34);
    assert_eq!(bytes[2], 0x81);
    assert_eq!(bytes[3], 0x03);

    header.ra = true;
    let with_ra = header.to_bytes();
    assert_eq!(with_ra[2], 0x81);
    assert_eq!(with_ra[3], 0x83);

    let parsed = DnsHeader::from_bytes(&with_ra).unwrap();
    assert!(parsed.qr);
    assert!(parsed.rd);
    assert!(!parsed.aa);
    assert!(!parsed.tc);
    assert!(parsed.ra);
    assert_eq!(parsed.opcode, 0);
    assert_eq!(parsed.z, 0);
    assert_eq!(parsed.rcode, 3);
    assert_eq!(parsed.id, 0x1234);
}

#[test]
fn header_round_trip_all_fields() {
    let header = DnsHeader {
        id: 0xBEEF,
        qr: true,
        opcode: 5,
        aa: true,
        tc: false,
        rd: true,
        ra: true,
        z: 0,
        rcode: 4,
        qdcount: 2,
        ancount: 7,
        nscount: 1,
        arcount: 3,
    };
    let parsed = DnsHeader::from_bytes(&header.to_bytes()).unwrap();
    assert_eq!(parsed, header);
}

#[test]
fn header_from_short_buffer_fails() {
    let bytes = vec![0u8; 11];
    assert_eq!(DnsHeader::from_bytes(&bytes), Err(DnsError::ParseError));
}
