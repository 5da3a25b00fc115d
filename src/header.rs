//! The fixed twelve-byte DNS header.

use vstd::prelude::*;
use crate::bytes::{be16, read_be16, u16_from_be, push_be16};

verus! {

/// Length in bytes of a DNS header.
pub const HEADER_LEN: usize = 12;

/// The response code of a successful answer.
pub const RCODE_NO_ERROR: u16 = 0;

/// The response code of a query of a type or class that is not served.
pub const RCODE_NOT_IMPLEMENTED: u16 = 4;

/// The header fields that the engine reads from a query.
#[derive(Debug, Clone, Copy, PartialEq, Eq)]
pub struct DnsHeader {
    pub id: u16,
    /// The QR bit: set on responses, clear on queries.
    pub is_response: bool,
    pub question_count: u16,
}

/// Why a query could not be decoded.
#[derive(Debug, Clone, Copy, PartialEq, Eq)]
pub enum ParseError {
    /// Fewer than twelve bytes: no complete header.
    TruncatedHeader,
    /// A label's length byte points past the end of the buffer.
    TruncatedLabel,
    /// Fewer than four bytes follow the name for QTYPE and QCLASS.
    TruncatedQuestionFields,
}

/// The header read from a buffer of at least twelve bytes: the ID from bytes
/// 0-1, the QR bit as bit 15 of the flags word in bytes 2-3, and QDCOUNT from
/// bytes 4-5.
pub open spec fn header_of(d: Seq<u8>) -> DnsHeader
    recommends
        d.len() >= 12,
{
    DnsHeader {
        id: read_be16(d[0], d[1]),
        is_response: d[2] >= 128,
        question_count: read_be16(d[4], d[5]),
    }
}

/// QDCOUNT and ANCOUNT of an emitted header: one of each on success, none
/// otherwise.
pub open spec fn section_count(rcode: u16) -> u16 {
    if rcode == 0 {
        1
    } else {
        0
    }
}

/// The twelve bytes of a response header with the given ID and RCODE: the QR
/// bit set, every other flag clear, and no authority or additional records.
pub open spec fn header_bytes(id: u16, rcode: u16) -> Seq<u8> {
    be16(id) + be16((0x8000 + rcode) as u16) + be16(section_count(rcode)) + be16(
        section_count(rcode),
    ) + be16(0) + be16(0)
}

/// Decodes the header of a DNS message.
pub fn parse_dns_header(data: &[u8]) -> (r: Result<DnsHeader, ParseError>)
    ensures
        match r {
            Ok(h) => data@.len() >= 12 && h == header_of(data@),
            Err(e) => data@.len() < 12 && e == ParseError::TruncatedHeader,
        },
{
    if data.len() < HEADER_LEN {
        return Err(ParseError::TruncatedHeader);
    }
    let id = u16_from_be(data[0], data[1]);
    let is_response = data[2] >= 128;
    let question_count = u16_from_be(data[4], data[5]);
    Ok(DnsHeader { id, is_response, question_count })
}

/// Builds a response header with the given ID and 4-bit RCODE.
pub fn build_dns_header(query_id: u16, rcode: u16) -> (r: Vec<u8>)
    requires
        rcode < 16,
    ensures
        r@ == header_bytes(query_id, rcode),
        r@.len() == 12,
{
    let count: u16 = if rcode == RCODE_NO_ERROR {
        1
    } else {
        0
    };
    let mut out: Vec<u8> = Vec::new();
    push_be16(&mut out, query_id);
    push_be16(&mut out, 0x8000 + rcode);
    push_be16(&mut out, count);
    push_be16(&mut out, count);
    push_be16(&mut out, 0);
    push_be16(&mut out, 0);
    out
}

} // verus!
