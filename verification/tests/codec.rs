use tinydns::{
    build_query, decode_compressed_dns_name, decode_dns_name, encode_dns_name, DNSHeader,
    DNSPacket, DNSQuestion, DNSRecord, DnsError, TYPE_A,
};

fn sample_header() -> DNSHeader {
    DNSHeader {
        id: 0x1314,
        flags: 0x8180,
        num_questions: 1,
        num_answers: 2,
        num_authorities: 3,
        num_additionals: 4,
    }
}

#[test]
fn header_to_bytes_exact() {
    let b = sample_header().to_bytes();
    assert_eq!(b, vec![0x13, 0x14, 0x81, 0x80, 0, 1, 0, 2, 0, 3, 0, 4]);
}

#[test]
fn header_round_trip() {
    let h = sample_header();
    let parsed = DNSHeader::parse(&h.to_bytes()).unwrap();
    assert_eq!(parsed, h);
}

#[test]
fn header_round_trip_extremes() {
    let h = DNSHeader {
        id: 0,
        flags: 0xffff,
        num_questions: 0xffff,
        num_answers: 0,
        num_authorities: 1,
        num_additionals: 0x8000,
    };
    assert_eq!(DNSHeader::parse(&h.to_bytes()).unwrap(), h);
}

#[test]
fn header_truncated() {
    let short = [0u8; 11];
    assert_eq!(DNSHeader::parse(&short), Err(DnsError::TruncatedBuffer));
}

#[test]
fn encode_name_exact() {
    let b = encode_dns_name("example.com").unwrap();
    let mut expect = vec![7u8];
    expect.extend_from_slice(b"example");
    expect.push(3);
    expect.extend_from_slice(b"com");
    expect.push(0);
    assert_eq!(b, expect);
}

#[test]
fn encode_name_empty_parts_skipped() {
    let b = encode_dns_name("a..b").unwrap();
    assert_eq!(b, vec![1, b'a', 1, b'b', 0]);
    let c = encode_dns_name("www.example.com.").unwrap();
    assert_eq!(c[0], 3);
    assert_eq!(*c.last().unwrap(), 0);
    assert_eq!(c.len(), 17);
}

#[test]
fn encode_name_empty_string() {
    assert_eq!(encode_dns_name("").unwrap(), vec![0]);
}

#[test]
fn encode_name_label_of_63_accepted() {
    let label = "a".repeat(63);
    let b = encode_dns_name(&label).unwrap();
    assert_eq!(b.len(), 65);
    assert_eq!(b[0], 63);
}

#[test]
fn encode_name_label_of_64_rejected() {
    let label = "a".repeat(64);
    assert_eq!(encode_dns_name(&label), Err(DnsError::InvalidLabel));
    let name = format!("www.{}.com", label);
    assert_eq!(encode_dns_name(&name), Err(DnsError::InvalidLabel));
}

#[test]
fn name_round_trip() {
    let b = encode_dns_name("www.example.com").unwrap();
    let (next, name) = decode_dns_name(&b, 0).unwrap();
    assert_eq!(next, b.len());
    assert_eq!(name, "www.example.com");
}

#[test]
fn name_round_trip_unicode() {
    let b = encode_dns_name("b\u{00fc}cher.example").unwrap();
    let (_, name) = decode_dns_name(&b, 0).unwrap();
    assert_eq!(name, "b\u{00fc}cher.example");
}

#[test]
fn decode_name_empty() {
    let buf = [0u8, 9, 9];
    let (next, name) = decode_dns_name(&buf, 0).unwrap();
    assert_eq!(next, 1);
    assert_eq!(name, "");
}

#[test]
fn decode_name_compression_pointer() {
    // "example.com" fully spelled out at offset 12; a later name is just a
    // pointer byte 0xC0 plus 12.
    let mut buf = vec![0u8; 12];
    buf.push(7);
    buf.extend_from_slice(b"example");
    buf.push(3);
    buf.extend_from_slice(b"com");
    buf.push(0);
    let ptr_off = buf.len();
    buf.push(0xc0);
    buf.push(12);
    let (next, name) = decode_dns_name(&buf, ptr_off).unwrap();
    assert_eq!(name, "example.com");
    assert_eq!(next, ptr_off + 2);
}

#[test]
fn decode_name_label_then_pointer() {
    let mut buf = vec![0u8; 12];
    buf.push(7);
    buf.extend_from_slice(b"example");
    buf.push(3);
    buf.extend_from_slice(b"com");
    buf.push(0);
    let second = buf.len();
    buf.push(3);
    buf.extend_from_slice(b"www");
    buf.push(0xc0);
    buf.push(12);
    let (next, name) = decode_dns_name(&buf, second).unwrap();
    assert_eq!(name, "www.example.com");
    assert_eq!(next, buf.len());
}

#[test]
fn decode_name_self_pointer_rejected() {
    let mut buf = vec![0u8; 12];
    let off = buf.len();
    buf.push(0xc0);
    buf.push(off as u8);
    assert_eq!(decode_dns_name(&buf, off), Err(DnsError::CompressionLoop));
}

#[test]
fn decode_name_forward_pointer_rejected() {
    let mut buf = vec![0u8; 12];
    let off = buf.len();
    buf.push(0xc0);
    buf.push((off + 2) as u8);
    buf.push(3);
    buf.extend_from_slice(b"com");
    buf.push(0);
    assert_eq!(decode_dns_name(&buf, off), Err(DnsError::CompressionLoop));
}

#[test]
fn decode_name_truncated_label() {
    let buf = [3u8, b'a'];
    assert_eq!(decode_dns_name(&buf, 0), Err(DnsError::TruncatedBuffer));
}

#[test]
fn decode_name_missing_terminator() {
    let buf = [1u8, b'a'];
    assert_eq!(decode_dns_name(&buf, 0), Err(DnsError::TruncatedBuffer));
}

#[test]
fn decode_name_invalid_utf8() {
    let buf = [2u8, 0xff, 0xfe, 0];
    assert_eq!(decode_dns_name(&buf, 0), Err(DnsError::InvalidEncoding));
}

#[test]
fn decode_compressed_name_direct() {
    let mut buf = vec![0u8; 12];
    buf.push(7);
    buf.extend_from_slice(b"example");
    buf.push(3);
    buf.extend_from_slice(b"com");
    buf.push(0);
    let second = buf.len();
    buf.push(0xc0);
    buf.push(12);
    // The caller has read the pointer byte 0xC0 at `second`; the cursor is on
    // its second byte, and the name began at `second` itself.
    let (next, name) = decode_compressed_dns_name(&buf, 0xc0, second + 1, second).unwrap();
    assert_eq!(name, "example.com");
    assert_eq!(next, second + 2);
}

#[test]
fn decode_compressed_name_loop_rejected() {
    let mut buf = vec![0u8; 12];
    let off = buf.len();
    buf.push(0xc0);
    buf.push(off as u8);
    assert_eq!(
        decode_compressed_dns_name(&buf, 0xc0, off + 1, off),
        Err(DnsError::CompressionLoop)
    );
}

#[test]
fn question_to_bytes_exact() {
    let q = DNSQuestion { name: String::from("ab.c"), type_: 1, class_: 1 };
    let b = q.to_bytes().unwrap();
    assert_eq!(b, vec![2, b'a', b'b', 1, b'c', 0, 0, 1, 0, 1]);
}

#[test]
fn question_parse_round_trip() {
    let q = DNSQuestion { name: String::from("www.example.com"), type_: 0x1c, class_: 1 };
    let b = q.to_bytes().unwrap();
    let (next, parsed) = DNSQuestion::parse(&b, 0).unwrap();
    assert_eq!(next, b.len());
    assert_eq!(parsed, q);
}

#[test]
fn question_truncated_after_name() {
    let b = [1u8, b'a', 0, 0, 1];
    assert_eq!(DNSQuestion::parse(&b, 0), Err(DnsError::TruncatedBuffer));
}

#[test]
fn record_parse_exact() {
    let mut b = vec![1u8, b'a', 0];
    b.extend_from_slice(&[0, 1, 0, 1, 0, 0, 0x0e, 0x10, 0, 4, 93, 184, 216, 34]);
    let (next, rec) = DNSRecord::parse(&b, 0).unwrap();
    assert_eq!(next, b.len());
    assert_eq!(rec.name, "a");
    assert_eq!(rec.type_, 1);
    assert_eq!(rec.class_, 1);
    assert_eq!(rec.ttl, 3600);
    assert_eq!(rec.data, vec![93, 184, 216, 34]);
}

#[test]
fn record_data_length_truncated() {
    // Declares 5 data bytes but only 4 remain.
    let mut b = vec![1u8, b'a', 0];
    b.extend_from_slice(&[0, 1, 0, 1, 0, 0, 0, 60, 0, 5, 9, 9, 9, 9]);
    assert_eq!(DNSRecord::parse(&b, 0), Err(DnsError::TruncatedBuffer));
}

#[test]
fn record_fixed_fields_truncated() {
    let b = [1u8, b'a', 0, 0, 1, 0, 1];
    assert_eq!(DNSRecord::parse(&b, 0), Err(DnsError::TruncatedBuffer));
}

fn two_answer_message() -> Vec<u8> {
    let mut buf = DNSHeader {
        id: 0x00a5,
        flags: 0x8180,
        num_questions: 1,
        num_answers: 2,
        num_authorities: 0,
        num_additionals: 0,
    }
    .to_bytes();
    // question: www.example.com A IN, fully spelled out at offset 12
    buf.push(3);
    buf.extend_from_slice(b"www");
    buf.push(7);
    buf.extend_from_slice(b"example");
    buf.push(3);
    buf.extend_from_slice(b"com");
    buf.push(0);
    buf.extend_from_slice(&[0, 1, 0, 1]);
    // answer 1: name compressed to offset 12
    buf.extend_from_slice(&[0xc0, 12, 0, 1, 0, 1, 0, 0, 0, 60, 0, 4, 93, 184, 216, 34]);
    // answer 2: name compressed to offset 16 (example.com)
    buf.extend_from_slice(&[0xc0, 16, 0, 1, 0, 1, 0, 0, 0, 61, 0, 4, 93, 184, 216, 35]);
    buf
}

#[test]
fn packet_count_driven_parse() {
    let buf = two_answer_message();
    let p = DNSPacket::parse(&buf).unwrap();
    assert_eq!(p.header.num_questions, 1);
    assert_eq!(p.questions.len(), 1);
    assert_eq!(p.answers.len(), 2);
    assert_eq!(p.authorities.len(), 0);
    assert_eq!(p.additionals.len(), 0);
    assert_eq!(p.questions[0].name, "www.example.com");
    assert_eq!(p.questions[0].type_, 1);
    assert_eq!(p.questions[0].class_, 1);
    // wire order is kept
    assert_eq!(p.answers[0].name, "www.example.com");
    assert_eq!(p.answers[0].ttl, 60);
    assert_eq!(p.answers[0].data, vec![93, 184, 216, 34]);
    assert_eq!(p.answers[1].name, "example.com");
    assert_eq!(p.answers[1].ttl, 61);
    assert_eq!(p.answers[1].data, vec![93, 184, 216, 35]);
}

#[test]
fn packet_no_partial_result_on_truncation() {
    let buf = two_answer_message();
    // cut into the second answer's data: the whole parse aborts
    let cut = &buf[..buf.len() - 2];
    assert_eq!(DNSPacket::parse(cut), Err(DnsError::TruncatedBuffer));
}

#[test]
fn packet_header_error_propagates() {
    assert_eq!(DNSPacket::parse(&[0u8; 5]), Err(DnsError::TruncatedBuffer));
}

#[test]
fn build_query_shape() {
    let q = build_query("www.example.com", TYPE_A).unwrap();
    // 12-byte header followed by the encoded question
    let name = encode_dns_name("www.example.com").unwrap();
    assert_eq!(q.len(), 12 + name.len() + 4);
    let h = DNSHeader::parse(&q).unwrap();
    assert!(h.id >= 1 && h.id < 65535);
    assert_eq!(h.flags, 0x0100);
    assert_eq!(h.num_questions, 1);
    assert_eq!(h.num_answers, 0);
    assert_eq!(h.num_authorities, 0);
    assert_eq!(h.num_additionals, 0);
    assert_eq!(&q[12..12 + name.len()], &name[..]);
    assert_eq!(&q[12 + name.len()..], &[0, 1, 0, 1]);
    // decoding the question recovers the name exactly
    let (next, parsed) = DNSQuestion::parse(&q, 12).unwrap();
    assert_eq!(next, q.len());
    assert_eq!(parsed.name, "www.example.com");
    assert_eq!(parsed.type_, TYPE_A);
    assert_eq!(parsed.class_, 1);
}

#[test]
fn build_query_bad_name_rejected() {
    let label = "x".repeat(64);
    assert_eq!(build_query(&label, TYPE_A), Err(DnsError::InvalidLabel));
}
