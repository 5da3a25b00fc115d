use dns_server::processor::{frame_tcp_message, process_dns_packet, tcp_reply};
use dns_server::question::parse_dns_question;

fn query(id: u16, name: &[&[u8]], qtype: u16, qclass: u16) -> Vec<u8> {
    let mut q = vec![(id >> 8) as u8, id as u8, 0x01, 0x00, 0, 1, 0, 0, 0, 0, 0, 0];
    for label in name {
        q.push(label.len() as u8);
        q.extend_from_slice(label);
    }
    q.push(0);
    q.extend_from_slice(&qtype.to_be_bytes());
    q.extend_from_slice(&qclass.to_be_bytes());
    q
}

fn example(id: u16, qtype: u16) -> Vec<u8> {
    query(id, &[b"example", b"com"], qtype, 1)
}

#[test]
fn short_buffers_get_no_response() {
    for len in 0..12usize {
        assert!(process_dns_packet(&vec![0u8; len]).is_none());
        assert!(tcp_reply(&vec![1u8; len]).is_none());
    }
}

#[test]
fn zero_question_count_gets_no_response() {
    let header = [0x12u8, 0x34, 0x01, 0x00, 0, 0, 0, 0, 0, 0, 0, 0];
    assert!(process_dns_packet(&header).is_none());
    let mut q = example(7, 1);
    q[4] = 0;
    q[5] = 0;
    assert!(process_dns_packet(&q).is_none());
}

#[test]
fn malformed_question_gets_no_response() {
    let mut q = example(7, 1);
    q.truncate(q.len() - 2);
    assert!(process_dns_packet(&q).is_none());
    let mut q = vec![0u8, 7, 1, 0, 0, 1, 0, 0, 0, 0, 0, 0];
    q.extend_from_slice(&[9, b'a']);
    assert!(process_dns_packet(&q).is_none());
}

#[test]
fn a_query_gets_answer() {
    let q = example(0x1234, 1);
    let r = process_dns_packet(&q).unwrap();
    assert_eq!(&r[0..2], &[0x12, 0x34]);
    assert_eq!(r[2] & 0x80, 0x80);
    assert_eq!(r[3] & 0x0f, 0);
    assert_eq!(&r[4..6], &[0, 1]);
    assert_eq!(&r[6..8], &[0, 1]);
    assert_eq!(&r[8..12], &[0, 0, 0, 0]);
    let qlen = q.len() - 12;
    assert_eq!(&r[12..12 + qlen], &q[12..]);
    let ans = &r[12 + qlen..];
    assert_eq!(&ans[0..2], &[0xc0, 0x0c]);
    assert_eq!(&ans[2..4], &[0, 1]);
    assert_eq!(&ans[4..6], &[0, 1]);
    assert_eq!(&ans[6..10], &[0, 0, 0x0e, 0x10]);
    assert_eq!(&ans[10..12], &[0, 4]);
    assert_eq!(&ans[12..], &[93, 184, 216, 34]);
}

#[test]
fn txt_query_gets_not_implemented() {
    let q = example(0x0102, 16);
    let r = process_dns_packet(&q).unwrap();
    assert_eq!(r, vec![0x01, 0x02, 0x80, 0x04, 0, 0, 0, 0, 0, 0, 0, 0]);
}

#[test]
fn other_class_gets_not_implemented() {
    let q = query(0x0a0b, &[b"example", b"com"], 1, 3);
    let r = process_dns_packet(&q).unwrap();
    assert_eq!(r, vec![0x0a, 0x0b, 0x80, 0x04, 0, 0, 0, 0, 0, 0, 0, 0]);
}

#[test]
fn mx_query_rdata_is_preference_and_name() {
    let q = example(9, 15);
    let r = process_dns_packet(&q).unwrap();
    let ans = &r[q.len()..];
    let rdlen = u16::from_be_bytes([ans[10], ans[11]]) as usize;
    let rdata = &ans[12..];
    assert_eq!(rdata.len(), rdlen);
    assert_eq!(&rdata[0..2], &[0, 10]);
    let mut name = rdata[2..].to_vec();
    assert_eq!(*name.last().unwrap(), 0);
    name.extend_from_slice(&[0, 0, 0, 0]);
    let (decoded, end) = parse_dns_question(&name, 0).unwrap();
    assert_eq!(decoded.qname, b"mail.example.com".to_vec());
    assert_eq!(end, rdata.len() - 2 + 4);
}

#[test]
fn cname_query_echoes_question() {
    let q = query(0x4242, &[b"www", b"test", b"org"], 5, 1);
    let r = process_dns_packet(&q).unwrap();
    assert_eq!(&r[12..q.len()], &q[12..]);
    assert_eq!(&r[q.len() + 2..q.len() + 4], &[0, 5]);
}

#[test]
fn tcp_frame_prefix_is_length() {
    let framed = frame_tcp_message(&[1, 2, 3]);
    assert_eq!(framed, vec![0, 3, 1, 2, 3]);
    let q = example(0x55aa, 1);
    let framed = tcp_reply(&q).unwrap();
    let len = u16::from_be_bytes([framed[0], framed[1]]) as usize;
    assert_eq!(len, framed.len() - 2);
    assert_eq!(framed[2..].to_vec(), process_dns_packet(&q).unwrap());
    let big = vec![7u8; 300];
    let framed = frame_tcp_message(&big);
    assert_eq!(&framed[0..2], &[1, 44]);
    assert_eq!(framed.len(), 302);
}

#[test]
fn tcp_replies_belong_to_their_queries() {
    let q1 = example(0x0001, 1);
    let q2 = query(0x0002, &[b"other", b"net"], 15, 1);
    let r1 = tcp_reply(&q1).unwrap();
    let r2 = tcp_reply(&q2).unwrap();
    assert_eq!(&r1[2..4], &[0x00, 0x01]);
    assert_eq!(&r2[2..4], &[0x00, 0x02]);
    assert_eq!(&r1[14..14 + q1.len() - 12], &q1[12..]);
    assert_eq!(&r2[14..14 + q2.len() - 12], &q2[12..]);
    assert_eq!(tcp_reply(&q1).unwrap(), r1);
    assert_ne!(r1, r2);
}

#[test]
fn tcp_reply_none_for_dropped_query() {
    assert!(tcp_reply(&[0u8, 1, 0, 0, 0, 0, 0, 0, 0, 0, 0, 0]).is_none());
}
