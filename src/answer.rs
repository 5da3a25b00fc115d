//! The single answer record of a successful response.

use vstd::prelude::*;
use crate::bytes::{be16, be32, push_be16, push_be32, push_range};
use crate::name::{
    DOT, encoded_name, encode_domain_name, decode_name, split_dots, labels_valid, lemma_short_name_fits,
    lemma_split_no_dot, lemma_split_at_dot, lemma_scan_encoded, lemma_join_split, encode_labels,
};

verus! {

/// Record type A: an IPv4 address.
pub const TYPE_A: u16 = 1;

/// Record type CNAME: a canonical name.
pub const TYPE_CNAME: u16 = 5;

/// Record type MX: a preference and a mail exchanger.
pub const TYPE_MX: u16 = 15;

/// Class IN, the only class served.
pub const CLASS_IN: u16 = 1;

/// Time to live of every answer, in seconds.
pub const ANSWER_TTL: u32 = 3600;

/// The compression pointer to the question name at offset 12.
pub const NAME_POINTER: u16 = 0xC00C;

/// Preference of the MX answer.
pub const MX_PREFERENCE: u16 = 10;

/// The record types that get an answer.
pub open spec fn supported_qtype(qtype: u16) -> bool {
    qtype == TYPE_A || qtype == TYPE_CNAME || qtype == TYPE_MX
}

/// The address of the A answer, 93.184.216.34.
pub open spec fn answer_address() -> Seq<u8> {
    seq![93u8, 184u8, 216u8, 34u8]
}

/// The CNAME target, "example.com".
pub open spec fn cname_target() -> Seq<u8> {
    seq![101u8, 120u8, 97u8, 109u8, 112u8, 108u8, 101u8, 46u8, 99u8, 111u8, 109u8]
}

/// The MX exchanger, "mail.example.com".
pub open spec fn mx_target() -> Seq<u8> {
    seq![109u8, 97u8, 105u8, 108u8, 46u8] + cname_target()
}

/// The RDATA of the answer to a supported type.
pub open spec fn rdata_of(qtype: u16) -> Seq<u8> {
    if qtype == TYPE_A {
        answer_address()
    } else if qtype == TYPE_CNAME {
        encoded_name(cname_target())
    } else {
        be16(MX_PREFERENCE) + encoded_name(mx_target())
    }
}

/// The answer record: the pointer to the question name, the type, class IN,
/// the TTL, RDLENGTH and RDATA.
pub open spec fn answer_bytes(qtype: u16) -> Seq<u8> {
    be16(NAME_POINTER) + be16(qtype) + be16(CLASS_IN) + be32(ANSWER_TTL) + be16(
        rdata_of(qtype).len() as u16,
    ) + rdata_of(qtype)
}

/// The wire form of a name of at most 255 bytes, which always encodes.
fn encode_short_name(n: &[u8]) -> (r: Vec<u8>)
    requires
        n@.len() <= 255,
    ensures
        r@ == encoded_name(n@),
{
    proof {
        lemma_short_name_fits(n@);
    }
    match encode_domain_name(n) {
        Ok(v) => v,
        Err(_) => vstd::pervasive::unreached(),
    }
}

/// Builds the answer record for a supported record type.
pub fn build_dns_answer(qtype: u16) -> (r: Vec<u8>)
    requires
        supported_qtype(qtype),
    ensures
        r@ == answer_bytes(qtype),
{
    let mut rdata: Vec<u8> = Vec::new();
    let example: Vec<u8> = vec![101u8, 120u8, 97u8, 109u8, 112u8, 108u8, 101u8, DOT, 99u8, 111u8, 109u8];
    assert(example@ =~= cname_target());
    if qtype == TYPE_A {
        rdata.push(93u8);
        rdata.push(184u8);
        rdata.push(216u8);
        rdata.push(34u8);
    } else if qtype == TYPE_CNAME {
        rdata = encode_short_name(example.as_slice());
    } else {
        let mut mail: Vec<u8> = vec![109u8, 97u8, 105u8, 108u8, DOT];
        push_range(&mut mail, example.as_slice(), 0, example.len());
        assert(example@.subrange(0, 11) =~= example@);
        push_be16(&mut rdata, MX_PREFERENCE);
        let encoded = encode_short_name(mail.as_slice());
        push_range(&mut rdata, encoded.as_slice(), 0, encoded.len());
        assert(encoded@.subrange(0, encoded@.len() as int) =~= encoded@);
    }
    assert(rdata@ =~= rdata_of(qtype));
    let mut out: Vec<u8> = Vec::new();
    push_be16(&mut out, NAME_POINTER);
    push_be16(&mut out, qtype);
    push_be16(&mut out, CLASS_IN);
    push_be32(&mut out, ANSWER_TTL);
    push_be16(&mut out, rdata.len() as u16);
    push_range(&mut out, rdata.as_slice(), 0, rdata.len());
    assert(rdata@.subrange(0, rdata@.len() as int) =~= rdata@);
    out
}

/// The MX answer's RDATA is a two-byte preference followed by a complete,
/// zero-terminated encoding of the exchanger's name: decoding from offset 2
/// gives "mail.example.com" and ends exactly at the end of the RDATA.
pub proof fn lemma_mx_rdata_well_formed()
    ensures
        rdata_of(TYPE_MX).subrange(0, 2) == be16(MX_PREFERENCE),
        decode_name(rdata_of(TYPE_MX), 2) == Some((mx_target(), rdata_of(TYPE_MX).len())),
{
    let mail = seq![109u8, 97u8, 105u8, 108u8];
    let example = seq![101u8, 120u8, 97u8, 109u8, 112u8, 108u8, 101u8];
    let com = seq![99u8, 111u8, 109u8];
    assert(cname_target() =~= example + seq![DOT] + com);
    assert(mx_target() =~= mail + seq![DOT] + (example + seq![DOT] + com));
    let e = Seq::<u8>::empty();
    assert(e + mail =~= mail);
    assert(e + example =~= example);
    assert(e + com =~= com);
    lemma_split_at_dot(mail, example + seq![DOT] + com, e);
    lemma_split_at_dot(example, com, e);
    lemma_split_no_dot(com, e);
    let ls = seq![mail, example, com];
    assert(split_dots(mx_target()) =~= ls);
    assert(labels_valid(ls)) by {
        assert(ls[0].len() == 4);
        assert(ls[1].len() == 7);
        assert(ls[2].len() == 3);
    }
    let d = rdata_of(TYPE_MX);
    assert(d.subrange(2, (2 + encode_labels(ls).len() + 1) as int) =~= encode_labels(ls) + seq![0u8]);
    lemma_scan_encoded(d, 2, ls, Seq::empty());
    assert(Seq::<Seq<u8>>::empty() + ls =~= ls);
    lemma_join_split(mx_target());
    assert(d.subrange(0, 2) =~= be16(MX_PREFERENCE));
}

} // verus!
