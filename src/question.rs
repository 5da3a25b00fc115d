//! The question section: a name, QTYPE and QCLASS.

use vstd::prelude::*;
use crate::bytes::{read_be16, u16_from_be, push_range};
use crate::header::ParseError;
use crate::name::{DOT, scan_labels, decode_name, join_dots, lemma_join_push};

verus! {

/// A decoded question.
#[derive(Debug)]
pub struct DnsQuestion {
    /// The labels of the name joined by dots.
    pub qname: Vec<u8>,
    pub qtype: u16,
    pub qclass: u16,
}

/// The question read at `off`: its dotted name, QTYPE, QCLASS and the offset
/// just past QCLASS.
pub open spec fn question_of(d: Seq<u8>, off: nat) -> Result<(Seq<u8>, u16, u16, nat), ParseError> {
    match decode_name(d, off) {
        None => Err(ParseError::TruncatedLabel),
        Some((name, e)) => if e + 4 > d.len() {
            Err(ParseError::TruncatedQuestionFields)
        } else {
            Ok(
                (
                    name,
                    read_be16(d[e as int], d[(e + 1) as int]),
                    read_be16(d[(e + 2) as int], d[(e + 3) as int]),
                    (e + 4) as nat,
                ),
            )
        },
    }
}

/// Decodes the question that starts at `offset` and returns it with the
/// offset just past its QCLASS field.
pub fn parse_dns_question(data: &[u8], offset: usize) -> (r: Result<(DnsQuestion, usize), ParseError>)
    ensures
        match r {
            Ok((q, end)) => question_of(data@, offset as nat) == Ok::<_, ParseError>(
                (q.qname@, q.qtype, q.qclass, end as nat),
            ) && offset + 4 <= end <= data@.len(),
            Err(e) => question_of(data@, offset as nat) == Err::<(Seq<u8>, u16, u16, nat), _>(e),
        },
{
    let ghost d = data@;
    let mut off: usize = offset;
    let mut qname: Vec<u8> = Vec::new();
    let ghost mut labels: Seq<Seq<u8>> = Seq::empty();
    let mut first = true;
    let mut done = false;
    while !done && off < data.len()
        invariant
            d == data@,
            off >= offset,
            !done ==> scan_labels(d, off as nat, labels) == scan_labels(d, offset as nat, Seq::empty()),
            done ==> scan_labels(d, offset as nat, Seq::empty()) == Some((labels, off as nat)),
            done ==> off <= d.len(),
            qname@ == join_dots(labels),
            first <==> labels.len() == 0,
        decreases d.len() - off,
    {
        let length = data[off] as usize;
        if length == 0 {
            off = off + 1;
            done = true;
        } else if length > data.len() - off - 1 {
            return Err(ParseError::TruncatedLabel);
        } else {
            let ghost label = d.subrange(off + 1, off + 1 + length);
            if !first {
                qname.push(DOT);
            }
            push_range(&mut qname, data, off + 1, off + 1 + length);
            proof {
                lemma_join_push(labels, label);
                labels = labels.push(label);
            }
            assert(qname@ =~= join_dots(labels));
            off = off + 1 + length;
            first = false;
        }
    }
    if off > data.len() || data.len() - off < 4 {
        return Err(ParseError::TruncatedQuestionFields);
    }
    let qtype = u16_from_be(data[off], data[off + 1]);
    let qclass = u16_from_be(data[off + 2], data[off + 3]);
    Ok((DnsQuestion { qname, qtype, qclass }, off + 4))
}

} // verus!
