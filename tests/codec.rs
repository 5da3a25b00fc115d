use dns_server::answer::build_dns_answer;
use dns_server::bytes::{push_be16, push_be32, u16_from_be};
use dns_server::header::{build_dns_header, parse_dns_header, ParseError};
use dns_server::name::{encode_domain_name, EncodeError};
use dns_server::question::parse_dns_question;

#[test]
fn header_decode_fails_below_twelve_bytes() {
    for len in 0..12usize {
        let buf = vec![0xffu8; len];
        assert_eq!(parse_dns_header(&buf).unwrap_err(), ParseError::TruncatedHeader);
    }
}

#[test]
fn header_decode_reads_fields() {
    let buf = [0x12u8, 0x34, 0x81, 0x00, 0x00, 0x02, 0, 0, 0, 0, 0, 0];
    let h = parse_dns_header(&buf).unwrap();
    assert_eq!(h.id, 0x1234);
    assert!(h.is_response);
    assert_eq!(h.question_count, 2);
    let q = [0xabu8, 0xcd, 0x01, 0x00, 0x00, 0x01, 0, 0, 0, 0, 0, 0];
    let h = parse_dns_header(&q).unwrap();
    assert_eq!(h.id, 0xabcd);
    assert!(!h.is_response);
    assert_eq!(h.question_count, 1);
}

#[test]
fn header_encode_success_and_failure() {
    assert_eq!(
        build_dns_header(0x1234, 0),
        vec![0x12, 0x34, 0x80, 0x00, 0, 1, 0, 1, 0, 0, 0, 0]
    );
    assert_eq!(
        build_dns_header(0xbeef, 4),
        vec![0xbe, 0xef, 0x80, 0x04, 0, 0, 0, 0, 0, 0, 0, 0]
    );
}

#[test]
fn big_endian_helpers() {
    let mut v = Vec::new();
    push_be16(&mut v, 0x0102);
    push_be32(&mut v, 3600);
    assert_eq!(v, vec![1, 2, 0, 0, 0x0e, 0x10]);
    assert_eq!(u16_from_be(0xc0, 0x0c), 0xc00c);
}

#[test]
fn encode_domain_name_emits_labels() {
    assert_eq!(
        encode_domain_name(b"example.com").unwrap(),
        vec![7, b'e', b'x', b'a', b'm', b'p', b'l', b'e', 3, b'c', b'o', b'm', 0]
    );
    assert_eq!(encode_domain_name(b"").unwrap(), vec![0, 0]);
}

#[test]
fn encode_domain_name_label_limits() {
    let ok = vec![b'a'; 255];
    let enc = encode_domain_name(&ok).unwrap();
    assert_eq!(enc.len(), 257);
    assert_eq!(enc[0], 255);
    let mut long = b"ok.".to_vec();
    long.extend(vec![b'b'; 256]);
    assert_eq!(encode_domain_name(&long).unwrap_err(), EncodeError::LabelTooLong);
    assert_eq!(encode_domain_name(&vec![b'c'; 300]).unwrap_err(), EncodeError::LabelTooLong);
}

#[test]
fn domain_name_round_trip() {
    for name in [&b"example.com"[..], b"mail.example.com", b"a", b"x.y.z.w"] {
        let mut buf = encode_domain_name(name).unwrap();
        let enc_len = buf.len();
        buf.extend_from_slice(&[0, 1, 0, 1]);
        let (q, end) = parse_dns_question(&buf, 0).unwrap();
        assert_eq!(q.qname, name.to_vec());
        assert_eq!(end, enc_len + 4);
        assert_eq!(q.qtype, 1);
        assert_eq!(q.qclass, 1);
    }
    let long = vec![b'q'; 255];
    let mut buf = encode_domain_name(&long).unwrap();
    buf.extend_from_slice(&[0, 15, 0, 1]);
    let (q, _) = parse_dns_question(&buf, 0).unwrap();
    assert_eq!(q.qname, long);
    assert_eq!(q.qtype, 15);
}

#[test]
fn question_decode_errors() {
    // label length runs past the end
    assert_eq!(
        parse_dns_question(&[5, b'a', b'b'], 0).unwrap_err(),
        ParseError::TruncatedLabel
    );
    // name complete, only three bytes of type and class
    assert_eq!(
        parse_dns_question(&[1, b'a', 0, 0, 1, 0], 0).unwrap_err(),
        ParseError::TruncatedQuestionFields
    );
    // no terminator at all
    assert_eq!(
        parse_dns_question(&[1, b'a'], 0).unwrap_err(),
        ParseError::TruncatedQuestionFields
    );
    // offset past the end
    assert_eq!(
        parse_dns_question(&[0, 0, 1, 0, 1], 9).unwrap_err(),
        ParseError::TruncatedQuestionFields
    );
}

#[test]
fn question_decode_at_offset() {
    let buf = [9u8, 9, 3, b'w', b'w', b'w', 0, 0x00, 0x05, 0x00, 0x01, 0xaa];
    let (q, end) = parse_dns_question(&buf, 2).unwrap();
    assert_eq!(q.qname, b"www".to_vec());
    assert_eq!(q.qtype, 5);
    assert_eq!(q.qclass, 1);
    assert_eq!(end, 11);
}

#[test]
fn answer_a_record() {
    assert_eq!(
        build_dns_answer(1),
        vec![0xc0, 0x0c, 0, 1, 0, 1, 0, 0, 0x0e, 0x10, 0, 4, 93, 184, 216, 34]
    );
}

#[test]
fn answer_cname_record() {
    let mut expected = vec![0xc0, 0x0c, 0, 5, 0, 1, 0, 0, 0x0e, 0x10, 0, 13];
    expected.extend_from_slice(&[7, b'e', b'x', b'a', b'm', b'p', b'l', b'e', 3, b'c', b'o', b'm', 0]);
    assert_eq!(build_dns_answer(5), expected);
}

#[test]
fn answer_mx_record() {
    let mut expected = vec![0xc0, 0x0c, 0, 15, 0, 1, 0, 0, 0x0e, 0x10, 0, 20, 0, 10];
    expected.extend_from_slice(&[4, b'm', b'a', b'i', b'l', 7, b'e', b'x', b'a', b'm', b'p', b'l', b'e', 3, b'c', b'o', b'm', 0]);
    assert_eq!(build_dns_answer(15), expected);
}
