//! From a query's bytes to the response's bytes, and TCP's length framing.

use vstd::prelude::*;
use crate::bytes::{be16, read_be16, push_be16, push_range};
use crate::header::{
    HEADER_LEN, RCODE_NO_ERROR, RCODE_NOT_IMPLEMENTED, header_of, header_bytes, parse_dns_header,
    build_dns_header,
};
use crate::question::{question_of, parse_dns_question};
use crate::answer::{CLASS_IN, TYPE_A, TYPE_CNAME, TYPE_MX, supported_qtype, answer_bytes, build_dns_answer};

verus! {

/// The response to a query, or `None` where none is sent: a buffer too short
/// for a header, a header with no question, or a question that does not
/// decode. A supported class IN question gets a success header, the question
/// bytes as received and one answer; any other question gets a header with
/// RCODE 4 alone.
pub open spec fn response_of(d: Seq<u8>) -> Option<Seq<u8>> {
    if d.len() < 12 {
        None
    } else if header_of(d).question_count == 0 {
        None
    } else {
        match question_of(d, 12) {
            Err(_) => None,
            Ok((_, qtype, qclass, end)) => if qclass == CLASS_IN && supported_qtype(qtype) {
                Some(
                    header_bytes(header_of(d).id, 0) + d.subrange(12, end as int) + answer_bytes(
                        qtype,
                    ),
                )
            } else {
                Some(header_bytes(header_of(d).id, 4))
            },
        }
    }
}

/// A message as sent over TCP: its length as two big-endian bytes, then the
/// message.
pub open spec fn tcp_frame(m: Seq<u8>) -> Seq<u8> {
    be16(m.len() as u16) + m
}

/// What a TCP connection sends back for a query: the framed response, or
/// nothing where there is no response or it is too long to frame.
pub open spec fn tcp_reply_of(q: Seq<u8>) -> Option<Seq<u8>> {
    match response_of(q) {
        Some(resp) => if resp.len() <= 0xFFFF {
            Some(tcp_frame(resp))
        } else {
            None
        },
        None => None,
    }
}

/// Builds the response to one query, or `None` where the query is dropped.
pub fn process_dns_packet(data: &[u8]) -> (r: Option<Vec<u8>>)
    ensures
        match r {
            Some(v) => response_of(data@) == Some(v@),
            None => response_of(data@) == None::<Seq<u8>>,
        },
{
    let header = match parse_dns_header(data) {
        Ok(h) => h,
        Err(_) => return None,
    };
    if header.question_count == 0 {
        return None;
    }
    let (question, q_end) = match parse_dns_question(data, HEADER_LEN) {
        Ok(p) => p,
        Err(_) => return None,
    };
    let mut response = Vec::new();
    if question.qclass == CLASS_IN && (question.qtype == TYPE_A || question.qtype == TYPE_CNAME
        || question.qtype == TYPE_MX) {
        let head = build_dns_header(header.id, RCODE_NO_ERROR);
        push_range(&mut response, head.as_slice(), 0, head.len());
        push_range(&mut response, data, HEADER_LEN, q_end);
        let answer = build_dns_answer(question.qtype);
        push_range(&mut response, answer.as_slice(), 0, answer.len());
        assert(head@.subrange(0, 12) =~= head@);
        assert(answer@.subrange(0, answer@.len() as int) =~= answer@);
    } else {
        let head = build_dns_header(header.id, RCODE_NOT_IMPLEMENTED);
        push_range(&mut response, head.as_slice(), 0, head.len());
        assert(head@.subrange(0, 12) =~= head@);
    }
    assert(response_of(data@) == Some(response@));
    Some(response)
}

/// Prefixes a message with its length for TCP.
pub fn frame_tcp_message(message: &[u8]) -> (r: Vec<u8>)
    requires
        message@.len() <= 0xFFFF,
    ensures
        r@ == tcp_frame(message@),
{
    let mut out: Vec<u8> = Vec::new();
    push_be16(&mut out, message.len() as u16);
    push_range(&mut out, message, 0, message.len());
    assert(message@.subrange(0, message@.len() as int) =~= message@);
    out
}

/// The bytes a TCP connection sends back for the query it received, or
/// `None` where it sends nothing.
pub fn tcp_reply(query: &[u8]) -> (r: Option<Vec<u8>>)
    ensures
        match r {
            Some(v) => tcp_reply_of(query@) == Some(v@),
            None => tcp_reply_of(query@) == None::<Seq<u8>>,
        },
{
    match process_dns_packet(query) {
        Some(response) => if response.len() <= 0xFFFF {
            Some(frame_tcp_message(response.as_slice()))
        } else {
            None
        },
        None => None,
    }
}

/// A buffer shorter than a header gets no response.
pub proof fn lemma_short_buffer_no_response(d: Seq<u8>)
    requires
        d.len() < 12,
    ensures
        response_of(d) == None::<Seq<u8>>,
{
}

/// A well-formed header that announces no question gets no response.
pub proof fn lemma_no_question_no_response(d: Seq<u8>)
    requires
        d.len() >= 12,
        header_of(d).question_count == 0,
    ensures
        response_of(d) == None::<Seq<u8>>,
{
}

/// The first two bytes of a framed message, read big-endian, are the length
/// of the rest of it.
pub proof fn lemma_tcp_frame_length(m: Seq<u8>)
    requires
        m.len() <= 0xFFFF,
    ensures
        read_be16(tcp_frame(m)[0], tcp_frame(m)[1]) as int == tcp_frame(m).len() - 2,
        tcp_frame(m).subrange(2, tcp_frame(m).len() as int) == m,
{
    assert(tcp_frame(m).subrange(2, tcp_frame(m).len() as int) =~= m);
}

} // verus!
