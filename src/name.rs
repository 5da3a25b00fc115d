//! Domain names: dotted text and the wire's length-prefixed labels.

use vstd::prelude::*;
use crate::bytes::push_range;

verus! {

/// The byte that separates labels in a dotted name.
pub const DOT: u8 = 46;

/// The longest label that one length byte can announce.
pub const MAX_LABEL_LEN: usize = 255;

/// Why a dotted name cannot be put on the wire.
#[derive(Debug, Clone, Copy, PartialEq, Eq)]
pub enum EncodeError {
    /// A label is longer than 255 bytes.
    LabelTooLong,
}

/// The labels of `n`, when `cur` is the part of the current label already
/// read: `n` is cut at every dot.
pub open spec fn split_from(n: Seq<u8>, cur: Seq<u8>) -> Seq<Seq<u8>>
    decreases n.len(),
{
    if n.len() == 0 {
        seq![cur]
    } else if n[0] == DOT {
        seq![cur] + split_from(n.drop_first(), Seq::empty())
    } else {
        split_from(n.drop_first(), cur.push(n[0]))
    }
}

/// The labels of a dotted name, cut at every dot (the empty name has one
/// empty label).
pub open spec fn split_dots(n: Seq<u8>) -> Seq<Seq<u8>> {
    split_from(n, Seq::empty())
}

/// The labels joined by dots.
pub open spec fn join_dots(ls: Seq<Seq<u8>>) -> Seq<u8>
    decreases ls.len(),
{
    if ls.len() == 0 {
        Seq::empty()
    } else if ls.len() == 1 {
        ls[0]
    } else {
        join_dots(ls.drop_last()) + seq![DOT] + ls.last()
    }
}

/// Each label prefixed by its length byte, in order (without the terminator).
pub open spec fn encode_labels(ls: Seq<Seq<u8>>) -> Seq<u8>
    decreases ls.len(),
{
    if ls.len() == 0 {
        Seq::empty()
    } else {
        encode_labels(ls.drop_last()) + seq![ls.last().len() as u8] + ls.last()
    }
}

/// The wire form of a dotted name: its labels, then a zero byte.
pub open spec fn encoded_name(n: Seq<u8>) -> Seq<u8> {
    encode_labels(split_dots(n)) + seq![0u8]
}

/// Every label fits one length byte.
pub open spec fn labels_fit(ls: Seq<Seq<u8>>) -> bool {
    forall|k: int| 0 <= k < ls.len() ==> #[trigger] ls[k].len() <= 255
}

/// Every label is non-empty and fits one length byte.
pub open spec fn labels_valid(ls: Seq<Seq<u8>>) -> bool {
    forall|k: int| 0 <= k < ls.len() ==> 0 < #[trigger] ls[k].len() <= 255
}

/// Reads length-prefixed labels from `off` on, after the labels `acc`, up to
/// a zero byte or the end of the buffer. The result is the labels read and
/// the offset just past the terminator; `None` where a label runs past the
/// end.
pub open spec fn scan_labels(d: Seq<u8>, off: nat, acc: Seq<Seq<u8>>) -> Option<
    (Seq<Seq<u8>>, nat),
>
    decreases d.len() - off,
{
    if off >= d.len() {
        Some((acc, off))
    } else if d[off as int] == 0 {
        Some((acc, off + 1))
    } else if off + 1 + d[off as int] > d.len() {
        None
    } else {
        let next = off + 1 + d[off as int];
        scan_labels(d, next as nat, acc.push(d.subrange((off + 1) as int, next as int)))
    }
}

/// The dotted name read from `off` on and the offset just past it; `None`
/// where a label runs past the end of the buffer.
pub open spec fn decode_name(d: Seq<u8>, off: nat) -> Option<(Seq<u8>, nat)> {
    match scan_labels(d, off, Seq::empty()) {
        Some((ls, e)) => Some((join_dots(ls), e)),
        None => None,
    }
}

/// Adding one label to a joined name appends a dot and the label.
pub proof fn lemma_join_push(ls: Seq<Seq<u8>>, l: Seq<u8>)
    ensures
        join_dots(ls.push(l)) == if ls.len() == 0 {
            l
        } else {
            join_dots(ls) + seq![DOT] + l
        },
{
    assert(ls.push(l).drop_last() =~= ls);
}

/// Joining a label in front of a non-empty list puts a dot after it.
proof fn lemma_join_prepend(cur: Seq<u8>, x: Seq<Seq<u8>>)
    requires
        x.len() > 0,
    ensures
        join_dots(seq![cur] + x) == cur + seq![DOT] + join_dots(x),
    decreases x.len(),
{
    let s = seq![cur] + x;
    if x.len() == 1 {
        assert(s.drop_last() =~= seq![cur]);
        assert(join_dots(seq![cur]) == cur);
        assert(s.last() == x[0]);
        assert(join_dots(x) == x[0]);
        assert(join_dots(s) =~= cur + seq![DOT] + join_dots(x));
    } else {
        assert(s.drop_last() =~= seq![cur] + x.drop_last());
        lemma_join_prepend(cur, x.drop_last());
        assert(join_dots(s) =~= cur + seq![DOT] + join_dots(x));
    }
}

/// Cutting a name at its dots always gives at least one label.
proof fn lemma_split_nonempty(n: Seq<u8>, cur: Seq<u8>)
    ensures
        split_from(n, cur).len() >= 1,
    decreases n.len(),
{
    if n.len() > 0 {
        lemma_split_nonempty(n.drop_first(), Seq::empty());
        lemma_split_nonempty(n.drop_first(), cur.push(n[0]));
    }
}

/// Joining the labels of a name by dots gives the name back.
proof fn lemma_join_split_from(n: Seq<u8>, cur: Seq<u8>)
    ensures
        join_dots(split_from(n, cur)) == cur + n,
    decreases n.len(),
{
    if n.len() == 0 {
        assert(cur + n =~= cur);
    } else if n[0] == DOT {
        let rest = n.drop_first();
        lemma_split_nonempty(rest, Seq::empty());
        lemma_join_prepend(cur, split_from(rest, Seq::empty()));
        lemma_join_split_from(rest, Seq::empty());
        assert(Seq::<u8>::empty() + rest =~= rest);
        assert(cur + seq![DOT] + rest =~= cur + n);
    } else {
        lemma_join_split_from(n.drop_first(), cur.push(n[0]));
        assert(cur.push(n[0]) + n.drop_first() =~= cur + n);
    }
}

/// Joining the labels of a dotted name gives the name back.
pub proof fn lemma_join_split(n: Seq<u8>)
    ensures
        join_dots(split_dots(n)) == n,
{
    lemma_join_split_from(n, Seq::empty());
    assert(Seq::<u8>::empty() + n =~= n);
}

/// The encoding of a non-empty label list starts with its first label.
proof fn lemma_encode_front(ls: Seq<Seq<u8>>)
    requires
        ls.len() > 0,
    ensures
        encode_labels(ls) == seq![ls[0].len() as u8] + ls[0] + encode_labels(ls.drop_first()),
    decreases ls.len(),
{
    if ls.len() == 1 {
        assert(ls.drop_last() =~= Seq::<Seq<u8>>::empty());
        assert(ls.drop_first() =~= Seq::<Seq<u8>>::empty());
        assert(encode_labels(Seq::<Seq<u8>>::empty()) == Seq::<u8>::empty());
        assert(ls.last() == ls[0]);
        assert(encode_labels(ls) =~= seq![ls[0].len() as u8] + ls[0]);
        assert(encode_labels(ls) =~= seq![ls[0].len() as u8] + ls[0] + encode_labels(
            ls.drop_first(),
        ));
    } else {
        let dl = ls.drop_last();
        lemma_encode_front(dl);
        assert(dl.drop_first() =~= ls.drop_first().drop_last());
        assert(ls.drop_first().last() == ls.last());
        assert(encode_labels(ls) =~= seq![ls[0].len() as u8] + ls[0] + encode_labels(
            ls.drop_first(),
        ));
    }
}

/// Scanning the encoding of valid labels reads exactly those labels back.
pub proof fn lemma_scan_encoded(d: Seq<u8>, off: nat, ls: Seq<Seq<u8>>, acc: Seq<Seq<u8>>)
    requires
        labels_valid(ls),
        off + encode_labels(ls).len() + 1 <= d.len(),
        d.subrange(off as int, (off + encode_labels(ls).len() + 1) as int) == encode_labels(ls) + seq![
            0u8,
        ],
    ensures
        scan_labels(d, off, acc) == Some((acc + ls, off + encode_labels(ls).len() + 1)),
    decreases ls.len(),
{
    let e = encode_labels(ls) + seq![0u8];
    assert(d[off as int] == e[0]);
    if ls.len() == 0 {
        assert(acc + ls =~= acc);
    } else {
        lemma_encode_front(ls);
        let l0 = ls[0];
        let rest = ls.drop_first();
        assert(0 < ls[0].len() <= 255);
        assert(d[off as int] == l0.len());
        let next = (off + 1 + l0.len()) as nat;
        assert(d.subrange((off + 1) as int, next as int) =~= l0) by {
            assert forall|i: int| 0 <= i < l0.len() implies d.subrange(
                (off + 1) as int,
                next as int,
            )[i] == l0[i] by {
                assert(d[off + 1 + i] == e[1 + i]);
            }
        }
        assert(d.subrange(next as int, (next + encode_labels(rest).len() + 1) as int) =~= encode_labels(
            rest,
        ) + seq![0u8]) by {
            assert forall|i: int| 0 <= i < encode_labels(rest).len() + 1 implies d.subrange(
                next as int,
                (next + encode_labels(rest).len() + 1) as int,
            )[i] == (encode_labels(rest) + seq![0u8])[i] by {
                assert(d[next + i] == e[1 + l0.len() + i]);
            }
        }
        lemma_scan_encoded(d, next, rest, acc.push(l0));
        assert(acc.push(l0) + rest =~= acc + ls);
    }
}

/// Round trip: a dotted name whose labels are non-empty and at most 255
/// bytes long, once encoded, decodes back to the same name, and decoding
/// stops just past the encoding whatever follows it.
pub proof fn lemma_domain_name_round_trip(n: Seq<u8>, tail: Seq<u8>)
    requires
        labels_valid(split_dots(n)),
    ensures
        decode_name(encoded_name(n) + tail, 0) == Some((n, encoded_name(n).len())),
{
    let d = encoded_name(n) + tail;
    let ls = split_dots(n);
    assert(d.subrange(0, (encode_labels(ls).len() + 1) as int) =~= encode_labels(ls) + seq![0u8]);
    lemma_scan_encoded(d, 0, ls, Seq::empty());
    assert(Seq::<Seq<u8>>::empty() + ls =~= ls);
    lemma_join_split(n);
}


/// Encodes a dotted name as length-prefixed labels followed by a zero byte.
/// Fails where a label is longer than 255 bytes.
pub fn encode_domain_name(domain: &[u8]) -> (r: Result<Vec<u8>, EncodeError>)
    ensures
        match r {
            Ok(v) => labels_fit(split_dots(domain@)) && v@ == encoded_name(domain@),
            Err(e) => !labels_fit(split_dots(domain@)) && e == EncodeError::LabelTooLong,
        },
{
    let ghost n = domain@;
    let mut out: Vec<u8> = Vec::new();
    let mut start: usize = 0;
    let mut i: usize = 0;
    let ghost mut done: Seq<Seq<u8>> = Seq::empty();
    assert(n.subrange(0, 0) =~= Seq::<u8>::empty());
    assert(n.subrange(0, n.len() as int) =~= n);
    assert(done + split_dots(n) =~= split_dots(n));
    while i < domain.len()
        invariant
            n == domain@,
            start <= i <= n.len(),
            done + split_from(n.subrange(i as int, n.len() as int), n.subrange(
                start as int,
                i as int,
            )) == split_dots(n),
            labels_fit(done),
            out@ == encode_labels(done),
        decreases n.len() - i,
    {
        let ghost cur = n.subrange(start as int, i as int);
        let ghost rest = n.subrange(i as int, n.len() as int);
        assert(rest.drop_first() =~= n.subrange(i + 1, n.len() as int));
        assert(rest[0] == n[i as int]);
        if domain[i] == DOT {
            let ghost x = split_from(rest.drop_first(), Seq::empty());
            assert(split_from(rest, cur) == seq![cur] + x);
            assert(done + (seq![cur] + x) =~= done.push(cur) + x);
            assert(split_dots(n)[done.len() as int] == cur);
            if i - start > MAX_LABEL_LEN {
                return Err(EncodeError::LabelTooLong);
            }
            out.push((i - start) as u8);
            push_range(&mut out, domain, start, i);
            proof {
                assert(done.push(cur).drop_last() =~= done);
                assert(out@ =~= encode_labels(done.push(cur)));
                done = done.push(cur);
                assert(n.subrange(i + 1, i + 1) =~= Seq::<u8>::empty());
            }
            start = i + 1;
        } else {
            assert(cur.push(n[i as int]) =~= n.subrange(start as int, i + 1));
        }
        i = i + 1;
    }
    let ghost cur = n.subrange(start as int, i as int);
    assert(n.subrange(i as int, n.len() as int) =~= Seq::<u8>::empty());
    assert(split_dots(n) == done.push(cur)) by {
        assert(done + seq![cur] =~= done.push(cur));
    }
    assert(split_dots(n)[done.len() as int] == cur);
    if i - start > MAX_LABEL_LEN {
        return Err(EncodeError::LabelTooLong);
    }
    out.push((i - start) as u8);
    push_range(&mut out, domain, start, i);
    out.push(0);
    proof {
        assert(done.push(cur).drop_last() =~= done);
        assert(labels_fit(split_dots(n)));
    }
    assert(out@ =~= encoded_name(n));
    Ok(out)
}

/// No label of a name is longer than the name with the part already read.
proof fn lemma_split_label_len(n: Seq<u8>, cur: Seq<u8>)
    ensures
        forall|k: int|
            0 <= k < split_from(n, cur).len() ==> #[trigger] split_from(n, cur)[k].len() <= cur.len()
                + n.len(),
    decreases n.len(),
{
    if n.len() > 0 {
        let rest = n.drop_first();
        if n[0] == DOT {
            lemma_split_label_len(rest, Seq::empty());
            let x = split_from(rest, Seq::empty());
            assert forall|k: int| 0 <= k < split_from(n, cur).len() implies #[trigger] split_from(
                n,
                cur,
            )[k].len() <= cur.len() + n.len() by {
                if k > 0 {
                    assert(split_from(n, cur)[k] == x[k - 1]);
                }
            }
        } else {
            lemma_split_label_len(rest, cur.push(n[0]));
            assert(split_from(n, cur) == split_from(rest, cur.push(n[0])));
        }
    } else {
        assert(split_from(n, cur) == seq![cur]);
    }
}

/// A name of at most 255 bytes has no label too long to encode.
pub proof fn lemma_short_name_fits(n: Seq<u8>)
    requires
        n.len() <= 255,
    ensures
        labels_fit(split_dots(n)),
{
    lemma_split_label_len(n, Seq::empty());
}

/// A name without dots is a single label.
pub proof fn lemma_split_no_dot(a: Seq<u8>, cur: Seq<u8>)
    requires
        forall|i: int| 0 <= i < a.len() ==> a[i] != DOT,
    ensures
        split_from(a, cur) == seq![cur + a],
    decreases a.len(),
{
    if a.len() == 0 {
        assert(cur + a =~= cur);
    } else {
        lemma_split_no_dot(a.drop_first(), cur.push(a[0]));
        assert(cur.push(a[0]) + a.drop_first() =~= cur + a);
    }
}

/// A name cut at its first dot: the label before it, then the labels after.
pub proof fn lemma_split_at_dot(a: Seq<u8>, b: Seq<u8>, cur: Seq<u8>)
    requires
        forall|i: int| 0 <= i < a.len() ==> a[i] != DOT,
    ensures
        split_from(a + seq![DOT] + b, cur) == seq![cur + a] + split_from(b, Seq::empty()),
    decreases a.len(),
{
    let n = a + seq![DOT] + b;
    if a.len() == 0 {
        assert(n[0] == DOT);
        assert(n.drop_first() =~= b);
        assert(cur + a =~= cur);
    } else {
        assert(n[0] == a[0]);
        assert(n.drop_first() =~= a.drop_first() + seq![DOT] + b);
        lemma_split_at_dot(a.drop_first(), b, cur.push(a[0]));
        assert(cur.push(a[0]) + a.drop_first() =~= cur + a);
    }
}

} // verus!
