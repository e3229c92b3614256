//! The persistence payload format and its verified encoder and parser.
//!
//! A payload is a versioned header — four magic bytes, a format version
//! byte, and a record count as a little-endian `u64` — followed by `count`
//! records, each length-prefixed (an 8-byte little-endian length, then the
//! record's own encoding as given by [`Record::spec_enc`]).
//!
//! [`spec_payload`] is the single specification of that format.  The
//! encoder produces exactly it; the parser accepts exactly it, recovering
//! the encoded record sequence; and [`lemma_payload_injective`] shows the
//! payload determines that sequence, which is what makes the dump/load
//! round trip lossless.

use vstd::prelude::*;

use vstd::bytes::lemma_auto_spec_u64_to_from_le_bytes;
use vstd::bytes::spec_u64_from_le_bytes;
use vstd::bytes::spec_u64_to_le_bytes;
use vstd::bytes::u64_from_le_bytes;
use vstd::bytes::u64_to_le_bytes;
use vstd::slice::slice_subrange;

use crate::record::Record;

verus! {

/// Version tag written into every payload header.
pub const FORMAT_VERSION: u8 = 1;

/// The four magic bytes that open every payload.
pub open spec fn spec_magic() -> Seq<u8> {
    seq![0x74u8, 0x64u8, 0x62u8, 0x21u8]
}

/// The payload header for a collection of `count` records.
pub open spec fn spec_header(count: u64) -> Seq<u8> {
    spec_magic() + seq![FORMAT_VERSION] + spec_u64_to_le_bytes(count)
}

/// The views of a sequence of records.
pub open spec fn seq_views<T: View>(s: Seq<T>) -> Seq<<T as View>::V> {
    s.map_values(|t: T| t@)
}

/// The concatenation of the length-prefixed encodings of the records with
/// views `s`, in order.
pub open spec fn spec_enc_records<T: Record>(s: Seq<<T as View>::V>) -> Seq<u8>
    decreases s.len(),
{
    if s.len() == 0 {
        Seq::empty()
    } else {
        spec_u64_to_le_bytes(T::spec_enc(s[0]).len() as u64) + T::spec_enc(s[0])
            + spec_enc_records::<T>(s.drop_first())
    }
}

/// The full persistence payload for a collection whose records have views
/// `s`: header, then the length-prefixed record encodings.
pub open spec fn spec_payload<T: Record>(s: Seq<<T as View>::V>) -> Seq<u8> {
    spec_header(s.len() as u64) + spec_enc_records::<T>(s)
}

/// Appending one record to the sequence appends its frame to the encoding.
proof fn lemma_enc_records_push<T: Record>(s: Seq<<T as View>::V>, v: <T as View>::V)
    ensures
        spec_enc_records::<T>(s.push(v)) == spec_enc_records::<T>(s) + spec_u64_to_le_bytes(
            T::spec_enc(v).len() as u64,
        ) + T::spec_enc(v),
    decreases s.len(),
{
    let frame = spec_u64_to_le_bytes(T::spec_enc(v).len() as u64) + T::spec_enc(v);
    if s.len() == 0 {
        assert(s.push(v)[0] == v);
        assert(s.push(v).drop_first() =~= Seq::<<T as View>::V>::empty());
        assert(spec_enc_records::<T>(s) == Seq::<u8>::empty());
        assert(spec_enc_records::<T>(s.push(v).drop_first()) == Seq::<u8>::empty());
        assert(spec_enc_records::<T>(s.push(v)) == frame + spec_enc_records::<T>(
            s.push(v).drop_first(),
        ));
        assert(spec_enc_records::<T>(s.push(v)) =~= spec_enc_records::<T>(s) + frame);
    } else {
        assert(s.push(v)[0] == s[0]);
        assert(s.push(v).drop_first() =~= s.drop_first().push(v));
        lemma_enc_records_push::<T>(s.drop_first(), v);
        assert(spec_enc_records::<T>(s.push(v)) =~= spec_enc_records::<T>(s) + frame);
    }
}

/// Unfolds the encoding at position `i`: the tail of the encoding starting
/// at record `i` is record `i`'s frame followed by the rest.
proof fn lemma_enc_records_skip<T: Record>(s: Seq<<T as View>::V>, i: int)
    requires
        0 <= i < s.len(),
    ensures
        spec_enc_records::<T>(s.skip(i)) == spec_u64_to_le_bytes(T::spec_enc(s[i]).len() as u64)
            + T::spec_enc(s[i]) + spec_enc_records::<T>(s.skip(i + 1)),
{
    let t = s.skip(i);
    assert(t[0] == s[i]);
    assert(t.drop_first() =~= s.skip(i + 1));
}

/// Every record costs at least its 8-byte length prefix.
proof fn lemma_enc_records_min_len<T: Record>(s: Seq<<T as View>::V>)
    ensures
        spec_enc_records::<T>(s).len() >= 8 * s.len(),
    decreases s.len(),
{
    lemma_auto_spec_u64_to_from_le_bytes();
    if s.len() > 0 {
        lemma_enc_records_min_len::<T>(s.drop_first());
    }
}

/// The facts every valid payload carries on its face: its minimum length,
/// the header bytes, and the tail of record frames.
proof fn lemma_payload_facts<T: Record>(b: Seq<u8>, s: Seq<<T as View>::V>)
    requires
        b == spec_payload::<T>(s),
    ensures
        b.len() == 13 + spec_enc_records::<T>(s).len(),
        b.len() >= 13 + 8 * s.len(),
        b[0] == 0x74u8,
        b[1] == 0x64u8,
        b[2] == 0x62u8,
        b[3] == 0x21u8,
        b[4] == FORMAT_VERSION,
        b.subrange(5, 13) == spec_u64_to_le_bytes(s.len() as u64),
        spec_u64_from_le_bytes(b.subrange(5, 13)) == s.len() as u64,
        b.skip(13) == spec_enc_records::<T>(s),
        s.len() <= b.len(),
{
    lemma_auto_spec_u64_to_from_le_bytes();
    lemma_enc_records_min_len::<T>(s);
    assert(b.subrange(5, 13) =~= spec_u64_to_le_bytes(s.len() as u64));
    assert(b.skip(13) =~= spec_enc_records::<T>(s));
}

/// Reads record `i`'s frame out of a payload: given that the bytes from
/// `pos` on are the encodings of the records from `i` on, the 8 bytes at
/// `pos` are record `i`'s length prefix, the chunk after them is its
/// encoding, and the rest is the remaining records'.
proof fn lemma_frame_at<T: Record>(b: Seq<u8>, s: Seq<<T as View>::V>, i: int, pos: int)
    requires
        0 <= i < s.len(),
        0 <= pos <= b.len(),
        b.skip(pos) == spec_enc_records::<T>(s.skip(i)),
    ensures
        b.len() - pos >= 8 + T::spec_enc(s[i]).len(),
        T::spec_enc(s[i]).len() <= b.len(),
        b.subrange(pos, pos + 8) == spec_u64_to_le_bytes(T::spec_enc(s[i]).len() as u64),
        b.subrange(pos + 8, pos + 8 + T::spec_enc(s[i]).len()) == T::spec_enc(s[i]),
        b.skip(pos + 8 + T::spec_enc(s[i]).len()) == spec_enc_records::<T>(s.skip(i + 1)),
{
    lemma_auto_spec_u64_to_from_le_bytes();
    lemma_enc_records_skip::<T>(s, i);
    let el = T::spec_enc(s[i]).len() as int;
    let pre = spec_u64_to_le_bytes(T::spec_enc(s[i]).len() as u64);
    let enc = T::spec_enc(s[i]);
    let rest = spec_enc_records::<T>(s.skip(i + 1));
    assert(b.skip(pos).len() == b.len() - pos);
    assert(b.len() - pos == 8 + el + rest.len());
    assert forall|j: int| 0 <= j < 8 implies #[trigger] pre[j] == b[pos + j] by {
        assert(b.skip(pos)[j] == b[pos + j]);
        assert((pre + enc + rest)[j] == pre[j]);
    }
    assert forall|k: int| 0 <= k < el implies #[trigger] enc[k] == b[pos + 8 + k] by {
        assert(b.skip(pos)[8 + k] == b[pos + (8 + k)]);
        assert((pre + enc + rest)[8 + k] == enc[k]);
    }
    assert forall|k: int| 0 <= k < rest.len() implies #[trigger] rest[k] == b[pos + 8 + el + k] by {
        assert(b.skip(pos)[8 + el + k] == b[pos + (8 + el + k)]);
        assert((pre + enc + rest)[8 + el + k] == rest[k]);
    }
    assert(b.subrange(pos, pos + 8) =~= pre);
    assert(b.subrange(pos + 8, pos + 8 + el) =~= enc);
    assert(b.skip(pos + 8 + el) =~= rest);
}

/// Round-trip law at the format level: equal payloads come from equal
/// record-view sequences, so a persisted payload is an unambiguous
/// description of the collection it was dumped from.  The two bounds only
/// restate machine limits: a payload that fits in memory cannot hold more
/// records, or a longer record encoding, than a `u64` can count.
pub proof fn lemma_payload_injective<T: Record>(s1: Seq<<T as View>::V>, s2: Seq<<T as View>::V>)
    requires
        spec_payload::<T>(s1) == spec_payload::<T>(s2),
        s1.len() <= u64::MAX,
        s2.len() <= u64::MAX,
        forall|i: int| 0 <= i < s1.len() ==> #[trigger] T::spec_enc(s1[i]).len() <= u64::MAX,
        forall|i: int| 0 <= i < s2.len() ==> #[trigger] T::spec_enc(s2[i]).len() <= u64::MAX,
    ensures
        s1 == s2,
{
    lemma_auto_spec_u64_to_from_le_bytes();
    lemma_payload_facts::<T>(spec_payload::<T>(s1), s1);
    lemma_payload_facts::<T>(spec_payload::<T>(s1), s2);
    assert(s1.len() as u64 == s2.len() as u64);
    assert(s1.len() == s2.len());
    lemma_enc_records_injective::<T>(s1, s2);
}

/// Equal record-frame encodings of equally many records come from equal
/// view sequences.
proof fn lemma_enc_records_injective<T: Record>(s1: Seq<<T as View>::V>, s2: Seq<<T as View>::V>)
    requires
        spec_enc_records::<T>(s1) == spec_enc_records::<T>(s2),
        s1.len() == s2.len(),
        forall|i: int| 0 <= i < s1.len() ==> #[trigger] T::spec_enc(s1[i]).len() <= u64::MAX,
        forall|i: int| 0 <= i < s2.len() ==> #[trigger] T::spec_enc(s2[i]).len() <= u64::MAX,
    ensures
        s1 == s2,
    decreases s1.len(),
{
    lemma_auto_spec_u64_to_from_le_bytes();
    if s1.len() == 0 {
        assert(s1 =~= s2);
    } else {
        let b = spec_enc_records::<T>(s1);
        let l1 = T::spec_enc(s1[0]).len() as int;
        let l2 = T::spec_enc(s2[0]).len() as int;
        assert(b.subrange(0, 8) =~= spec_u64_to_le_bytes(T::spec_enc(s1[0]).len() as u64));
        assert(b.subrange(0, 8) =~= spec_u64_to_le_bytes(T::spec_enc(s2[0]).len() as u64));
        assert(T::spec_enc(s1[0]).len() as u64 == T::spec_enc(s2[0]).len() as u64);
        assert(l1 == l2);
        assert(T::spec_enc(s1[0]) =~= b.subrange(8, 8 + l1));
        assert(T::spec_enc(s2[0]) =~= b.subrange(8, 8 + l1));
        T::lemma_enc_injective(s1[0], s2[0]);
        assert(spec_enc_records::<T>(s1.drop_first()) =~= b.skip(8 + l1));
        assert(spec_enc_records::<T>(s2.drop_first()) =~= b.skip(8 + l1));
        assert(forall|i: int| 0 <= i < s1.drop_first().len() ==> #[trigger] T::spec_enc(
            s1.drop_first()[i],
        ).len() <= u64::MAX);
        assert(forall|i: int| 0 <= i < s2.drop_first().len() ==> #[trigger] T::spec_enc(
            s2.drop_first()[i],
        ).len() <= u64::MAX);
        lemma_enc_records_injective::<T>(s1.drop_first(), s2.drop_first());
        assert forall|i: int| 0 <= i < s1.len() implies s1[i] == s2[i] by {
            if i > 0 {
                assert(s1.drop_first()[i - 1] == s2.drop_first()[i - 1]);
                assert(s1.drop_first()[i - 1] == s1[i]);
                assert(s2.drop_first()[i - 1] == s2[i]);
            }
        }
        assert(s1 =~= s2);
    }
}

/// Encodes a collection of records into a complete payload.
pub fn encode_payload<T: Record>(items: &Vec<T>) -> (out: Vec<u8>)
    ensures
        out@ == spec_payload::<T>(seq_views(items@)),
{
    proof {
        lemma_auto_spec_u64_to_from_le_bytes();
    }
    let ghost vs = seq_views(items@);
    let mut out: Vec<u8> = Vec::new();
    out.push(0x74);
    out.push(0x64);
    out.push(0x62);
    out.push(0x21);
    out.push(FORMAT_VERSION);
    let mut cnt = u64_to_le_bytes(items.len() as u64);
    out.append(&mut cnt);
    proof {
        assert(out@ =~= spec_header(vs.len() as u64) + spec_enc_records::<T>(vs.take(0)));
    }
    let mut i: usize = 0;
    while i < items.len()
        invariant
            i <= items.len(),
            vs == seq_views(items@),
            out@ == spec_header(vs.len() as u64) + spec_enc_records::<T>(vs.take(i as int)),
        decreases items.len() - i,
    {
        let mut enc = items[i].encode();
        let mut lenb = u64_to_le_bytes(enc.len() as u64);
        out.append(&mut lenb);
        out.append(&mut enc);
        proof {
            lemma_auto_spec_u64_to_from_le_bytes();
            assert(vs[i as int] == items@[i as int]@);
            lemma_enc_records_push::<T>(vs.take(i as int), vs[i as int]);
            assert(vs.take(i as int).push(vs[i as int]) =~= vs.take(i + 1));
            assert(out@ =~= spec_header(vs.len() as u64) + spec_enc_records::<T>(
                vs.take(i + 1),
            ));
        }
        i = i + 1;
    }
    proof {
        assert(vs.take(items@.len() as int) =~= vs);
    }
    out
}

/// Parses a payload back into records.  Sound: on success the input is
/// exactly the payload of the returned records' views.  Complete: any
/// byte sequence that is the payload of some view sequence parses
/// successfully and returns records carrying those views, in order.
#[verifier::loop_isolation(false)]
#[verifier::rlimit(30)]
pub fn parse_payload<T: Record>(bytes: &Vec<u8>) -> (r: Option<Vec<T>>)
    ensures
        r matches Some(v) ==> bytes@ == spec_payload::<T>(seq_views(v@)),
        forall|s: Seq<<T as View>::V>| bytes@ == spec_payload::<T>(s) ==> (r matches Some(v)
            && seq_views(v@) == s),
{
    proof {
        lemma_auto_spec_u64_to_from_le_bytes();
    }
    let n = bytes.len();
    if n < 13 {
        proof {
            assert forall|s: Seq<<T as View>::V>| bytes@ != spec_payload::<T>(s) by {
                if bytes@ == spec_payload::<T>(s) {
                    lemma_payload_facts::<T>(bytes@, s);
                }
            }
        }
        return None;
    }
    if bytes[0] != 0x74 || bytes[1] != 0x64 || bytes[2] != 0x62 || bytes[3] != 0x21 || bytes[4]
        != FORMAT_VERSION {
        proof {
            assert forall|s: Seq<<T as View>::V>| bytes@ != spec_payload::<T>(s) by {
                if bytes@ == spec_payload::<T>(s) {
                    lemma_payload_facts::<T>(bytes@, s);
                }
            }
        }
        return None;
    }
    let count = u64_from_le_bytes(slice_subrange(bytes.as_slice(), 5, 13));
    let mut acc: Vec<T> = Vec::new();
    let mut pos: usize = 13;
    let mut i: u64 = 0;
    proof {
        assert(seq_views(acc@) =~= Seq::<<T as View>::V>::empty());
        assert(spec_enc_records::<T>(seq_views(acc@)) == Seq::<u8>::empty());
        assert(bytes@.subrange(13, 13) =~= Seq::<u8>::empty());
        assert forall|s: Seq<<T as View>::V>| bytes@ == spec_payload::<T>(s) implies {
            &&& seq_views(acc@) == s.take(0)
            &&& bytes@.skip(13) == spec_enc_records::<T>(s.skip(0))
        } by {
            lemma_payload_facts::<T>(bytes@, s);
            assert(seq_views(acc@) =~= s.take(0));
            assert(s.skip(0) =~= s);
        }
    }
    while i < count
        invariant
            13 <= pos <= n,
            i <= count,
            i as int == acc@.len(),
            bytes@.subrange(13, pos as int) == spec_enc_records::<T>(seq_views(acc@)),
            forall|s: Seq<<T as View>::V>| bytes@ == spec_payload::<T>(s) ==> {
                &&& i as int <= s.len()
                &&& seq_views(acc@) == s.take(i as int)
                &&& bytes@.skip(pos as int) == spec_enc_records::<T>(s.skip(i as int))
            },
        decreases count - i,
    {
        let avail = n - pos;
        if avail < 8 {
            proof {
                assert forall|s: Seq<<T as View>::V>| bytes@ != spec_payload::<T>(s) by {
                    if bytes@ == spec_payload::<T>(s) {
                        lemma_payload_facts::<T>(bytes@, s);
                        assert((i as int) < s.len());
                        lemma_frame_at::<T>(bytes@, s, i as int, pos as int);
                    }
                }
            }
            return None;
        }
        let lenb = slice_subrange(bytes.as_slice(), pos, pos + 8);
        let item_len64 = u64_from_le_bytes(lenb);
        if item_len64 > (avail - 8) as u64 {
            proof {
                assert forall|s: Seq<<T as View>::V>| bytes@ != spec_payload::<T>(s) by {
                    if bytes@ == spec_payload::<T>(s) {
                        lemma_payload_facts::<T>(bytes@, s);
                        assert((i as int) < s.len());
                        lemma_frame_at::<T>(bytes@, s, i as int, pos as int);
                        let el = T::spec_enc(s[i as int]).len();
                        assert(item_len64 == el as u64);
                        assert(el as u64 <= (avail - 8) as u64);
                    }
                }
            }
            return None;
        }
        let item_len = item_len64 as usize;
        let chunk = slice_subrange(bytes.as_slice(), pos + 8, pos + 8 + item_len);
        let decoded = T::decode(chunk);
        match decoded {
            None => {
                proof {
                    assert forall|s: Seq<<T as View>::V>| bytes@ != spec_payload::<T>(s) by {
                        if bytes@ == spec_payload::<T>(s) {
                            lemma_payload_facts::<T>(bytes@, s);
                            assert((i as int) < s.len());
                            lemma_frame_at::<T>(bytes@, s, i as int, pos as int);
                            let el = T::spec_enc(s[i as int]).len();
                            assert(item_len64 == el as u64);
                            assert(item_len == el);
                            assert(chunk@ == T::spec_enc(s[i as int]));
                        }
                    }
                }
                return None;
            },
            Some(x) => {
                proof {
                    let accv = seq_views(acc@);
                    assert(T::spec_enc(x@) == chunk@);
                    assert(lenb@ =~= bytes@.subrange(pos as int, pos as int + 8));
                    assert(spec_u64_to_le_bytes(item_len64) == lenb@);
                    assert(T::spec_enc(x@).len() == item_len);
                    assert(T::spec_enc(x@).len() as u64 == item_len64);
                    lemma_enc_records_push::<T>(accv, x@);
                    assert(seq_views(acc@.push(x)) =~= accv.push(x@));
                    let pos2 = pos as int + 8 + item_len as int;
                    assert(bytes@.subrange(13, pos2) =~= bytes@.subrange(13, pos as int)
                        + bytes@.subrange(pos as int, pos as int + 8) + bytes@.subrange(
                        pos as int + 8,
                        pos2,
                    ));
                    assert(bytes@.subrange(13, pos2) == spec_enc_records::<T>(accv.push(x@)));
                    assert forall|s: Seq<<T as View>::V>| bytes@ == spec_payload::<T>(s)
                        implies {
                        &&& i as int + 1 <= s.len()
                        &&& seq_views(acc@.push(x)) == s.take(i as int + 1)
                        &&& bytes@.skip(pos2) == spec_enc_records::<T>(s.skip(i as int + 1))
                    } by {
                        lemma_payload_facts::<T>(bytes@, s);
                        assert((i as int) < s.len());
                        lemma_frame_at::<T>(bytes@, s, i as int, pos as int);
                        let el = T::spec_enc(s[i as int]).len();
                        assert(item_len64 == el as u64);
                        assert(item_len == el);
                        assert(chunk@ == T::spec_enc(s[i as int]));
                        assert(x@ == s[i as int]);
                        assert(s.take(i as int).push(s[i as int]) =~= s.take(i as int + 1));
                    }
                }
                acc.push(x);
                pos = pos + 8 + item_len;
                i = i + 1;
            },
        }
    }
    if pos != n {
        proof {
            assert forall|s: Seq<<T as View>::V>| bytes@ != spec_payload::<T>(s) by {
                if bytes@ == spec_payload::<T>(s) {
                    lemma_payload_facts::<T>(bytes@, s);
                    assert(s.len() as u64 == count);
                    assert(s.len() <= n);
                    assert(i as int == s.len());
                    assert(s.skip(i as int) =~= Seq::<<T as View>::V>::empty());
                    assert(bytes@.skip(pos as int).len() == 0);
                }
            }
        }
        return None;
    }
    proof {
        let accv = seq_views(acc@);
        assert(accv.len() == i as int);
        assert(accv.len() as u64 == count);
        assert(spec_u64_to_le_bytes(count) =~= bytes@.subrange(5, 13));
        assert(bytes@ =~= spec_header(accv.len() as u64) + spec_enc_records::<T>(accv));
        assert forall|s: Seq<<T as View>::V>| bytes@ == spec_payload::<T>(s) implies seq_views(
            acc@,
        ) == s by {
            lemma_payload_facts::<T>(bytes@, s);
            assert(s.len() as u64 == count);
            assert(s.len() <= n);
            assert(i as int == s.len());
            assert(s.take(i as int) =~= s);
        }
    }
    Some(acc)
}

} // verus!
