use vstd::prelude::*;

use crate::seqs::to_vec_bytes;
use crate::tree::seq_views;

verus! {

/// The four bytes of `x`, least significant first.
pub open spec fn u32_le(x: u32) -> Seq<u8> {
    seq![
        (x & 0xff) as u8,
        ((x >> 8) & 0xff) as u8,
        ((x >> 16) & 0xff) as u8,
        ((x >> 24) & 0xff) as u8,
    ]
}

/// The eight bytes of `x`, least significant first.
pub open spec fn u64_le(x: u64) -> Seq<u8> {
    seq![
        (x & 0xff) as u8,
        ((x >> 8) & 0xff) as u8,
        ((x >> 16) & 0xff) as u8,
        ((x >> 24) & 0xff) as u8,
        ((x >> 32) & 0xff) as u8,
        ((x >> 40) & 0xff) as u8,
        ((x >> 48) & 0xff) as u8,
        ((x >> 56) & 0xff) as u8,
    ]
}

/// The sixteen bytes of `x`, least significant first.
pub open spec fn u128_le(x: u128) -> Seq<u8> {
    u64_le(x as u64) + u64_le((x >> 64) as u64)
}

/// The `u32` read from four little-endian bytes.
pub open spec fn u32_from_le(s: Seq<u8>) -> u32
    recommends
        s.len() == 4,
{
    (s[0] as u32) | ((s[1] as u32) << 8) | ((s[2] as u32) << 16) | ((s[3] as u32) << 24)
}

/// The `u64` read from eight little-endian bytes.
pub open spec fn u64_from_le(s: Seq<u8>) -> u64
    recommends
        s.len() == 8,
{
    (s[0] as u64) | ((s[1] as u64) << 8) | ((s[2] as u64) << 16) | ((s[3] as u64) << 24) | ((
    s[4] as u64) << 32) | ((s[5] as u64) << 40) | ((s[6] as u64) << 48) | ((s[7] as u64) << 56)
}

/// The `u128` read from sixteen little-endian bytes.
pub open spec fn u128_from_le(s: Seq<u8>) -> u128
    recommends
        s.len() == 16,
{
    (u64_from_le(s.subrange(0, 8)) as u128) | ((u64_from_le(s.subrange(8, 16)) as u128) << 64)
}

pub proof fn lemma_u32_le_roundtrip(x: u32)
    ensures
        u32_from_le(u32_le(x)) == x,
{
    assert(((x & 0xff) as u8 as u32) | (((x >> 8) & 0xff) as u8 as u32) << 8 | (((x >> 16)
        & 0xff) as u8 as u32) << 16 | (((x >> 24) & 0xff) as u8 as u32) << 24 == x)
        by (bit_vector);
}

pub proof fn lemma_u64_le_roundtrip(x: u64)
    ensures
        u64_from_le(u64_le(x)) == x,
{
    assert(((x & 0xff) as u8 as u64) | (((x >> 8) & 0xff) as u8 as u64) << 8 | (((x >> 16)
        & 0xff) as u8 as u64) << 16 | (((x >> 24) & 0xff) as u8 as u64) << 24 | (((x >> 32)
        & 0xff) as u8 as u64) << 32 | (((x >> 40) & 0xff) as u8 as u64) << 40 | (((x >> 48)
        & 0xff) as u8 as u64) << 48 | (((x >> 56) & 0xff) as u8 as u64) << 56 == x)
        by (bit_vector);
}

pub proof fn lemma_u128_le_roundtrip(x: u128)
    ensures
        u128_from_le(u128_le(x)) == x,
{
    let lo = x as u64;
    let hi = (x >> 64) as u64;
    assert(u128_le(x).subrange(0, 8) =~= u64_le(lo));
    assert(u128_le(x).subrange(8, 16) =~= u64_le(hi));
    lemma_u64_le_roundtrip(lo);
    lemma_u64_le_roundtrip(hi);
    assert(((x as u64) as u128) | ((((x >> 64) as u64) as u128) << 64) == x) by (bit_vector);
}

/// Appends the four little-endian bytes of `x`.
pub fn push_u32_le(out: &mut Vec<u8>, x: u32)
    ensures
        final(out)@ == old(out)@ + u32_le(x),
{
    let ghost pre = out@;
    out.push((x & 0xff) as u8);
    out.push(((x >> 8) & 0xff) as u8);
    out.push(((x >> 16) & 0xff) as u8);
    out.push(((x >> 24) & 0xff) as u8);
    proof {
        assert(out@ =~= pre + u32_le(x));
    }
}

/// Appends the eight little-endian bytes of `x`.
pub fn push_u64_le(out: &mut Vec<u8>, x: u64)
    ensures
        final(out)@ == old(out)@ + u64_le(x),
{
    let ghost pre = out@;
    out.push((x & 0xff) as u8);
    out.push(((x >> 8) & 0xff) as u8);
    out.push(((x >> 16) & 0xff) as u8);
    out.push(((x >> 24) & 0xff) as u8);
    out.push(((x >> 32) & 0xff) as u8);
    out.push(((x >> 40) & 0xff) as u8);
    out.push(((x >> 48) & 0xff) as u8);
    out.push(((x >> 56) & 0xff) as u8);
    proof {
        assert(out@ =~= pre + u64_le(x));
    }
}

/// Appends the sixteen little-endian bytes of `x`.
pub fn push_u128_le(out: &mut Vec<u8>, x: u128)
    ensures
        final(out)@ == old(out)@ + u128_le(x),
{
    let ghost pre = out@;
    push_u64_le(out, x as u64);
    push_u64_le(out, (x >> 64) as u64);
    proof {
        assert(out@ =~= pre + u128_le(x));
    }
}

/// Reads the `u32` at `off`.
pub fn read_u32_le(b: &[u8], off: usize) -> (r: u32)
    requires
        off + 4 <= b@.len(),
    ensures
        r == u32_from_le(b@.subrange(off as int, off + 4)),
{
    let r = (b[off] as u32) | ((b[off + 1] as u32) << 8) | ((b[off + 2] as u32) << 16) | ((b[off
        + 3] as u32) << 24);
    proof {
        let s = b@.subrange(off as int, off + 4);
        assert(s[0] == b@[off as int] && s[1] == b@[off + 1]);
        assert(s[2] == b@[off + 2] && s[3] == b@[off + 3]);
    }
    r
}

/// Reads the `u64` at `off`.
pub fn read_u64_le(b: &[u8], off: usize) -> (r: u64)
    requires
        off + 8 <= b@.len(),
    ensures
        r == u64_from_le(b@.subrange(off as int, off + 8)),
{
    let r = (b[off] as u64) | ((b[off + 1] as u64) << 8) | ((b[off + 2] as u64) << 16) | ((b[off
        + 3] as u64) << 24) | ((b[off + 4] as u64) << 32) | ((b[off + 5] as u64) << 40) | ((b[off
        + 6] as u64) << 48) | ((b[off + 7] as u64) << 56);
    proof {
        let s = b@.subrange(off as int, off + 8);
        assert(s[0] == b@[off as int] && s[1] == b@[off + 1]);
        assert(s[2] == b@[off + 2] && s[3] == b@[off + 3]);
        assert(s[4] == b@[off + 4] && s[5] == b@[off + 5]);
        assert(s[6] == b@[off + 6] && s[7] == b@[off + 7]);
    }
    r
}

/// Reads the `u128` at `off`.
pub fn read_u128_le(b: &[u8], off: usize) -> (r: u128)
    requires
        off + 16 <= b@.len(),
    ensures
        r == u128_from_le(b@.subrange(off as int, off + 16)),
{
    let n = b.len();
    let lo = read_u64_le(b, off);
    let hi = read_u64_le(b, off + 8);
    proof {
        let s = b@.subrange(off as int, off + 16);
        assert(s.subrange(0, 8) =~= b@.subrange(off as int, off + 8));
        assert(s.subrange(8, 16) =~= b@.subrange(off + 8, off + 16));
    }
    (lo as u128) | ((hi as u128) << 64)
}

/// Whether every string of `L`, and the count itself, fits a 64-bit length
/// field.
pub open spec fn list_encodable(L: Seq<Seq<u8>>) -> bool {
    &&& L.len() <= u64::MAX
    &&& forall|i: int| 0 <= i < L.len() ==> (#[trigger] L[i]).len() <= u64::MAX
}

/// One length-prefixed item.
pub open spec fn enc_item(s: Seq<u8>) -> Seq<u8> {
    u64_le(s.len() as u64) + s
}

/// The items of `L`, each length-prefixed, in order.
pub open spec fn enc_items(L: Seq<Seq<u8>>) -> Seq<u8>
    decreases L.len(),
{
    if L.len() == 0 {
        Seq::empty()
    } else {
        enc_item(L.first()) + enc_items(L.drop_first())
    }
}

/// A byte list on the wire: a 64-bit count, then each item length-prefixed.
pub open spec fn encode_list_spec(L: Seq<Seq<u8>>) -> Seq<u8> {
    u64_le(L.len() as u64) + enc_items(L)
}

/// Encodes a list of byte strings.
pub fn encode_byte_list(items: &Vec<Vec<u8>>) -> (r: Vec<u8>)
    ensures
        r@ == encode_list_spec(seq_views(items@)),
        list_encodable(seq_views(items@)),
{
    let ghost lv = seq_views(items@);
    let mut out: Vec<u8> = Vec::new();
    push_u64_le(&mut out, items.len() as u64);
    let mut i: usize = 0;
    while i < items.len()
        invariant
            0 <= i <= items@.len(),
            lv == seq_views(items@),
            lv.len() == items@.len(),
            out@ == u64_le(lv.len() as u64) + enc_items(lv.take(i as int)),
            forall|j: int| 0 <= j < i ==> (#[trigger] lv[j]).len() <= u64::MAX,
        decreases items@.len() - i,
    {
        let ghost pre = out@;
        let ilen = items[i].len();
        proof {
            assert(lv[i as int].len() == ilen <= u64::MAX);
        }
        push_u64_le(&mut out, ilen as u64);
        out.extend_from_slice(items[i].as_slice());
        proof {
            lemma_enc_items_snoc(lv, i as int);
            assert(out@ =~= pre + enc_item(lv[i as int]));
            assert(out@ =~= u64_le(lv.len() as u64) + enc_items(lv.take(i + 1)));
        }
        i += 1;
    }
    proof {
        assert(lv.take(lv.len() as int) =~= lv);
        assert(lv.len() <= u64::MAX);
    }
    out
}

/// Extending an encoded prefix by one item extends its encoding.
pub proof fn lemma_enc_items_snoc(L: Seq<Seq<u8>>, i: int)
    requires
        0 <= i < L.len(),
    ensures
        enc_items(L.take(i + 1)) == enc_items(L.take(i)) + enc_item(L[i]),
    decreases i,
{
    if i == 0 {
        assert(L.take(1).first() == L[0]);
        assert(L.take(1).drop_first() =~= Seq::<Seq<u8>>::empty());
        assert(L.take(0) =~= Seq::<Seq<u8>>::empty());
        assert(enc_items(L.take(1)) =~= enc_item(L[0]));
        assert(enc_items(L.take(0)) + enc_item(L[0]) =~= enc_item(L[0]));
    } else {
        lemma_enc_items_snoc(L.drop_first(), i - 1);
        assert(L.take(i + 1).first() == L[0]);
        assert(L.take(i + 1).drop_first() =~= L.drop_first().take(i));
        assert(L.take(i).first() == L[0]);
        assert(L.take(i).drop_first() =~= L.drop_first().take(i - 1));
        assert(L.drop_first()[i - 1] == L[i]);
        assert(enc_items(L.take(i + 1)) =~= enc_item(L[0]) + enc_items(L.drop_first().take(i)));
        assert(enc_items(L.take(i)) + enc_item(L[i]) =~= enc_item(L[0]) + (enc_items(
            L.drop_first().take(i - 1),
        ) + enc_item(L.drop_first()[i - 1])));
    }
}

/// The tail of `L` from `k` encodes as the head item plus the rest.
pub proof fn lemma_enc_items_skip(L: Seq<Seq<u8>>, k: int)
    requires
        0 <= k < L.len(),
    ensures
        enc_items(L.skip(k)) == enc_item(L[k]) + enc_items(L.skip(k + 1)),
{
    assert(L.skip(k).len() > 0);
    assert(L.skip(k).first() == L[k]);
    assert(L.skip(k).drop_first() =~= L.skip(k + 1));
}

/// Decodes a byte list. Succeeds on, at least, every well-formed encoding:
/// if the input is `encode_list_spec(L)` for an encodable `L`, the result is
/// exactly `L`.
pub fn decode_byte_list(b: &[u8]) -> (r: Option<Vec<Vec<u8>>>)
    ensures
        forall|L: Seq<Seq<u8>>|
            list_encodable(L) && b@ == #[trigger] encode_list_spec(L) ==> (r matches Some(v)
                && seq_views(v@) == L),
{
    if b.len() < 8 {
        proof {
            assert forall|L: Seq<Seq<u8>>|
                list_encodable(L) && b@ == #[trigger] encode_list_spec(L) implies false by {
                assert(encode_list_spec(L).len() >= 8);
            }
        }
        return None;
    }
    let count = read_u64_le(b, 0);
    let mut out: Vec<Vec<u8>> = Vec::new();
    let mut pos: usize = 8;
    let mut k: u64 = 0;
    proof {
        assert forall|L: Seq<Seq<u8>>|
            list_encodable(L) && b@ == #[trigger] encode_list_spec(L) implies count == L.len()
            && seq_views(out@) == L.take(0) && b@.skip(8int) == enc_items(L.skip(0)) by {
            assert(b@.subrange(0, 8) =~= u64_le(L.len() as u64));
            lemma_u64_le_roundtrip(L.len() as u64);
            assert(b@.skip(8int) =~= enc_items(L));
            assert(seq_views(out@) =~= L.take(0));
            assert(L.skip(0) =~= L);
        }
    }
    while k < count
        invariant
            8 <= pos <= b@.len(),
            0 <= k <= count,
            forall|L: Seq<Seq<u8>>|
                list_encodable(L) && b@ == #[trigger] encode_list_spec(L) ==> {
                    &&& count == L.len()
                    &&& k <= L.len()
                    &&& seq_views(out@) == L.take(k as int)
                    &&& b@.skip(pos as int) == enc_items(L.skip(k as int))
                },
        decreases count - k,
    {
        if b.len() - pos < 8 {
            proof {
                assert forall|L: Seq<Seq<u8>>|
                    list_encodable(L) && b@ == #[trigger] encode_list_spec(L) implies false by {
                    lemma_enc_items_skip(L, k as int);
                    assert(b@.skip(pos as int).len() >= 8);
                }
            }
            return None;
        }
        let len = read_u64_le(b, pos);
        if len > (b.len() - pos - 8) as u64 {
            proof {
                assert forall|L: Seq<Seq<u8>>|
                    list_encodable(L) && b@ == #[trigger] encode_list_spec(L) implies false by {
                    lemma_enc_items_skip(L, k as int);
                    let item = L[k as int];
                    assert(b@.subrange(pos as int, pos + 8) =~= u64_le(item.len() as u64));
                    lemma_u64_le_roundtrip(item.len() as u64);
                    assert(b@.skip(pos as int).len() >= 8 + item.len());
                }
            }
            return None;
        }
        let ilen = len as usize;
        let item = to_vec_bytes(&b[pos + 8..pos + 8 + ilen]);
        let ghost prev = out@;
        out.push(item);
        let ghost gpos = pos as int;
        pos = pos + 8 + ilen;
        proof {
            crate::tree::lemma_seq_views_push(prev, out@.last());
            assert forall|L: Seq<Seq<u8>>|
                list_encodable(L) && b@ == #[trigger] encode_list_spec(L) implies {
                &&& k + 1 <= L.len()
                &&& seq_views(out@) == L.take(k + 1)
                &&& b@.skip(pos as int) == enc_items(L.skip(k + 1))
            } by {
                lemma_enc_items_skip(L, k as int);
                let itm = L[k as int];
                let tail = b@.skip(gpos);
                assert(tail == enc_item(itm) + enc_items(L.skip(k + 1)));
                assert forall|t: int| 0 <= t < 8 implies #[trigger] b@[gpos + t] == u64_le(
                    itm.len() as u64,
                )[t] by {
                    assert(tail[t] == b@[gpos + t]);
                    assert(tail[t] == enc_item(itm)[t]);
                    assert(enc_item(itm)[t] == u64_le(itm.len() as u64)[t]);
                }
                assert(b@.subrange(gpos, gpos + 8) =~= u64_le(itm.len() as u64));
                lemma_u64_le_roundtrip(itm.len() as u64);
                assert(itm.len() == len);
                assert forall|t: int| 0 <= t < len implies #[trigger] b@[gpos + 8 + t]
                    == itm[t] by {
                    assert(tail[8 + t] == b@[gpos + 8 + t]);
                    assert(tail[8 + t] == enc_item(itm)[8 + t]);
                    assert(enc_item(itm)[8 + t] == itm[t]);
                }
                assert forall|t: int|
                    0 <= t < len implies b@.subrange(gpos + 8, gpos + 8 + len)[t] == itm[t] by {
                    assert(b@.subrange(gpos + 8, gpos + 8 + len)[t] == b@[gpos + 8 + t]);
                }
                assert(b@.subrange(gpos + 8, gpos + 8 + len).len() == itm.len());
                assert(b@.subrange(gpos + 8, gpos + 8 + len) =~= itm);
                assert(out@ == prev.push(out@.last()));
                assert(out@.last()@ == itm);
                assert(seq_views(prev) == L.take(k as int));
                assert(seq_views(out@) =~= seq_views(prev).push(itm));
                assert(seq_views(prev).push(itm) =~= L.take(k + 1));
                assert(seq_views(out@) =~= L.take(k + 1));
                assert forall|t: int| 0 <= t < b@.skip(pos as int).len() implies b@.skip(
                    pos as int,
                )[t] == enc_items(L.skip(k + 1))[t] by {
                    assert(b@.skip(pos as int)[t] == b@[gpos + 8 + len + t]);
                    assert(tail[8 + len + t] == b@[gpos + 8 + len + t]);
                    assert(tail[8 + len + t] == enc_items(L.skip(k + 1))[t]);
                }
                assert(b@.skip(pos as int) =~= enc_items(L.skip(k + 1)));
            }
        }
        k = k + 1;
    }
    proof {
        assert forall|L: Seq<Seq<u8>>|
            list_encodable(L) && b@ == #[trigger] encode_list_spec(L) implies seq_views(out@)
            == L by {
            assert(L.take(L.len() as int) =~= L);
        }
    }
    Some(out)
}

} // verus!
