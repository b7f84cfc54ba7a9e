use vstd::prelude::*;

use crate::bytes::{
    lemma_u32_le_roundtrip, lemma_u64_le_roundtrip, lemma_u128_le_roundtrip, push_u128_le,
    push_u32_le, push_u64_le, read_u128_le, read_u32_le, read_u64_le, u128_from_le, u128_le,
    u32_from_le, u32_le, u64_from_le, u64_le,
};
use crate::checksum::{checksum, checksum_of};
use crate::errors::StorageError;

verus! {

/// On-disk length of one superblock record.
pub const SUPERBLOCK_LEN: usize = 78;

/// Newest on-disk format version this implementation reads.
pub const FORMAT_VERSION: u32 = 1;

/// The eight magic bytes opening every superblock.
pub open spec fn magic_bytes() -> Seq<u8> {
    seq![0x52u8, 0x45u8, 0x44u8, 0x42u8, 0x78u8, 0x78u8, 0x78u8, 0x78u8]
}

/// One superblock (god-page): the root record from which a committed state
/// is reached. Two copies live at fixed offsets; a commit rewrites the
/// inactive one.
#[derive(Clone, Copy)]
pub struct Superblock {
    /// On-disk format version.
    pub version: u32,
    /// Base-two logarithm of the page size.
    pub page_size_log2: u8,
    /// Pages the store currently spans.
    pub total_pages: u64,
    /// The committing transaction's id.
    pub tx_id: u64,
    /// First page of the state blob this superblock points at.
    pub state_start_page: u64,
    /// Byte length of the state blob.
    pub state_len: u64,
    /// Integrity tag of the state blob.
    pub state_checksum: u128,
}

/// The checksummed part of a superblock record: everything but the trailer.
pub open spec fn spec_encode_body(sb: Superblock) -> Seq<u8> {
    magic_bytes() + u32_le(sb.version) + seq![sb.page_size_log2] + u64_le(sb.total_pages) + u64_le(
        sb.tx_id,
    ) + u64_le(sb.state_start_page) + u64_le(sb.state_len) + u128_le(sb.state_checksum)
        + seq![1u8]
}

/// A full superblock record: body then checksum trailer.
pub open spec fn spec_encode_superblock(sb: Superblock) -> Seq<u8> {
    spec_encode_body(sb) + u128_le(checksum_of(spec_encode_body(sb)))
}

/// Whether a slot's bytes pass the magic, flag and checksum tests yet name a
/// format version newer than this implementation reads.
pub open spec fn slot_reads_newer(s: Seq<u8>) -> bool {
    &&& s.len() == SUPERBLOCK_LEN
    &&& s.subrange(0, 8) == magic_bytes()
    &&& s[61] == 1u8
    &&& u128_from_le(s.subrange(62, 78)) == checksum_of(s.subrange(0, 62))
    &&& u32_from_le(s.subrange(8, 12)) > FORMAT_VERSION
}

/// What a slot's bytes hold: a valid record, garbage, or a record from a
/// newer format.
#[derive(Clone, Copy)]
pub enum SlotDecode {
    Valid(Superblock),
    Invalid,
    Newer(u32),
}

/// Serializes a superblock record, trailer included.
pub fn encode_superblock(sb: &Superblock) -> (r: Vec<u8>)
    ensures
        r@ == spec_encode_superblock(*sb),
        r@.len() == SUPERBLOCK_LEN,
{
    let mut body: Vec<u8> = Vec::new();
    body.push(0x52u8);
    body.push(0x45u8);
    body.push(0x44u8);
    body.push(0x42u8);
    body.push(0x78u8);
    body.push(0x78u8);
    body.push(0x78u8);
    body.push(0x78u8);
    push_u32_le(&mut body, sb.version);
    body.push(sb.page_size_log2);
    push_u64_le(&mut body, sb.total_pages);
    push_u64_le(&mut body, sb.tx_id);
    push_u64_le(&mut body, sb.state_start_page);
    push_u64_le(&mut body, sb.state_len);
    push_u128_le(&mut body, sb.state_checksum);
    body.push(1u8);
    proof {
        assert(body@ =~= spec_encode_body(*sb));
    }
    let tag = checksum(body.as_slice());
    push_u128_le(&mut body, tag);
    proof {
        assert(body@ =~= spec_encode_superblock(*sb));
    }
    body
}

/// Decodes one slot's record.
///
/// Complete: the encoding of any current-version superblock decodes to it.
/// Sound: a `Valid` result means the bytes are exactly that superblock's
/// encoding, so any slot whose bytes are no well-formed encoding reads as
/// `Invalid` (up to checksum collisions, which the trailer check cannot
/// exclude but the format does not promise to).
#[verifier::rlimit(80)]
pub fn decode_superblock(b: &[u8]) -> (r: SlotDecode)
    requires
        b@.len() == SUPERBLOCK_LEN,
    ensures
        forall|sb: Superblock|
            b@ == #[trigger] spec_encode_superblock(sb) && sb.version == FORMAT_VERSION ==> r
                == SlotDecode::Valid(sb),
        r matches SlotDecode::Valid(sb2) ==> b@ == spec_encode_superblock(sb2) && sb2.version
            == FORMAT_VERSION,
        r matches SlotDecode::Newer(v) ==> slot_reads_newer(b@) && v == u32_from_le(
            b@.subrange(8, 12),
        ),
        r is Invalid ==> !slot_reads_newer(b@),
{
    if b[0] != 0x52 || b[1] != 0x45 || b[2] != 0x44 || b[3] != 0x42 || b[4] != 0x78 || b[5] != 0x78
        || b[6] != 0x78 || b[7] != 0x78 {
        proof {
            assert forall|sb: Superblock|
                b@ == #[trigger] spec_encode_superblock(sb) implies false by {
                lemma_superblock_fields(b@, sb);
            }
            if slot_reads_newer(b@) {
                assert(b@[0] == magic_bytes()[0] && b@[1] == magic_bytes()[1] && b@[2]
                    == magic_bytes()[2] && b@[3] == magic_bytes()[3] && b@[4] == magic_bytes()[4]
                    && b@[5] == magic_bytes()[5] && b@[6] == magic_bytes()[6] && b@[7]
                    == magic_bytes()[7]);
            }
        }
        return SlotDecode::Invalid;
    }
    if b[61] != 1 {
        proof {
            assert forall|sb: Superblock|
                b@ == #[trigger] spec_encode_superblock(sb) implies false by {
                lemma_superblock_fields(b@, sb);
            }
        }
        return SlotDecode::Invalid;
    }
    proof {
        assert(b@.subrange(0, 8) =~= magic_bytes());
    }
    let body: &[u8] = &b[0..62];
    let computed = checksum(body);
    let stored = read_u128_le(b, 62);
    if computed != stored {
        proof {
            assert forall|sb: Superblock|
                b@ == #[trigger] spec_encode_superblock(sb) implies false by {
                lemma_superblock_fields(b@, sb);
                lemma_u128_le_roundtrip(checksum_of(spec_encode_body(sb)));
            }
            assert(!slot_reads_newer(b@));
        }
        return SlotDecode::Invalid;
    }
    let version = read_u32_le(b, 8);
    if version > FORMAT_VERSION {
        proof {
            assert(b@.subrange(0, 8) =~= magic_bytes());
            assert forall|sb: Superblock|
                b@ == #[trigger] spec_encode_superblock(sb) && sb.version == FORMAT_VERSION
                    implies false by {
                lemma_superblock_fields(b@, sb);
                lemma_u32_le_roundtrip(sb.version);
            }
        }
        return SlotDecode::Newer(version);
    }
    if version != FORMAT_VERSION {
        proof {
            assert forall|sb: Superblock|
                b@ == #[trigger] spec_encode_superblock(sb) && sb.version == FORMAT_VERSION
                    implies false by {
                lemma_superblock_fields(b@, sb);
                lemma_u32_le_roundtrip(sb.version);
            }
        }
        return SlotDecode::Invalid;
    }
    let sb = Superblock {
        version,
        page_size_log2: b[12],
        total_pages: read_u64_le(b, 13),
        tx_id: read_u64_le(b, 21),
        state_start_page: read_u64_le(b, 29),
        state_len: read_u64_le(b, 37),
        state_checksum: read_u128_le(b, 45),
    };
    proof {
        // soundness: the bytes are exactly this superblock's encoding
        lemma_le_inverses(b@);
        assert(b@.subrange(0, 8) =~= magic_bytes());
        assert(b@.subrange(8, 12) == u32_le(sb.version));
        assert(b@.subrange(13, 21) == u64_le(sb.total_pages));
        assert(b@.subrange(21, 29) == u64_le(sb.tx_id));
        assert(b@.subrange(29, 37) == u64_le(sb.state_start_page));
        assert(b@.subrange(37, 45) == u64_le(sb.state_len));
        assert(b@.subrange(45, 61) == u128_le(sb.state_checksum));
        lemma_body_compose(b@, sb);
        assert(spec_encode_body(sb) == b@.subrange(0, 62));
        assert(u128_from_le(b@.subrange(62, 78)) == checksum_of(b@.subrange(0, 62)));
        lemma_u128_le_inverse(b@.subrange(62, 78));
        assert(u128_le(u128_from_le(b@.subrange(62, 78))) == b@.subrange(62, 78));
        assert(u128_le(checksum_of(spec_encode_body(sb))) == b@.subrange(62, 78));
        assert forall|i: int| 0 <= i < 78 implies spec_encode_superblock(sb)[i] == b@[i] by {
            if i < 62 {
                assert(spec_encode_superblock(sb)[i] == spec_encode_body(sb)[i]);
                assert(b@.subrange(0, 62)[i] == b@[i]);
            } else {
                assert(spec_encode_superblock(sb)[i] == u128_le(
                    checksum_of(spec_encode_body(sb)),
                )[i - 62]);
                assert(b@.subrange(62, 78)[i - 62] == b@[i]);
            }
        }
        assert(spec_encode_superblock(sb) =~= b@);
        // completeness: any superblock with these bytes is this one
        assert forall|sb2: Superblock|
            b@ == #[trigger] spec_encode_superblock(sb2) && sb2.version == FORMAT_VERSION
                implies SlotDecode::Valid(sb) == SlotDecode::Valid(sb2) by {
            lemma_superblock_fields(b@, sb2);
            lemma_u32_le_roundtrip(sb2.version);
            lemma_u64_le_roundtrip(sb2.total_pages);
            lemma_u64_le_roundtrip(sb2.tx_id);
            lemma_u64_le_roundtrip(sb2.state_start_page);
            lemma_u64_le_roundtrip(sb2.state_len);
            lemma_u128_le_roundtrip(sb2.state_checksum);
        }
    }
    SlotDecode::Valid(sb)
}

/// Composition: bytes whose fixed fields all match a superblock's encoded
/// fields form that superblock's encoded body.
proof fn lemma_body_compose(b: Seq<u8>, sb: Superblock)
    requires
        b.len() >= 62,
        b.subrange(0, 8) == magic_bytes(),
        b.subrange(8, 12) == u32_le(sb.version),
        b[12] == sb.page_size_log2,
        b.subrange(13, 21) == u64_le(sb.total_pages),
        b.subrange(21, 29) == u64_le(sb.tx_id),
        b.subrange(29, 37) == u64_le(sb.state_start_page),
        b.subrange(37, 45) == u64_le(sb.state_len),
        b.subrange(45, 61) == u128_le(sb.state_checksum),
        b[61] == 1u8,
    ensures
        b.subrange(0, 62) == spec_encode_body(sb),
{
    assert forall|i: int| 0 <= i < 62 implies b.subrange(0, 62)[i] == spec_encode_body(sb)[i] by {
        if i < 8 {
            assert(b[i] == b.subrange(0, 8)[i]);
        } else if i < 12 {
            assert(b[i] == b.subrange(8, 12)[i - 8]);
        } else if i == 12 {
        } else if i < 21 {
            assert(b[i] == b.subrange(13, 21)[i - 13]);
        } else if i < 29 {
            assert(b[i] == b.subrange(21, 29)[i - 21]);
        } else if i < 37 {
            assert(b[i] == b.subrange(29, 37)[i - 29]);
        } else if i < 45 {
            assert(b[i] == b.subrange(37, 45)[i - 37]);
        } else if i < 61 {
            assert(b[i] == b.subrange(45, 61)[i - 45]);
        }
    }
    assert(b.subrange(0, 62) =~= spec_encode_body(sb));
}

/// Field-by-field decomposition of an encoded superblock record.
pub proof fn lemma_superblock_fields(b: Seq<u8>, sb: Superblock)
    requires
        b == spec_encode_superblock(sb),
    ensures
        b.len() == SUPERBLOCK_LEN,
        b.subrange(0, 8) == magic_bytes(),
        b.subrange(8, 12) == u32_le(sb.version),
        b[12] == sb.page_size_log2,
        b.subrange(13, 21) == u64_le(sb.total_pages),
        b.subrange(21, 29) == u64_le(sb.tx_id),
        b.subrange(29, 37) == u64_le(sb.state_start_page),
        b.subrange(37, 45) == u64_le(sb.state_len),
        b.subrange(45, 61) == u128_le(sb.state_checksum),
        b[61] == 1u8,
        b.subrange(0, 62) == spec_encode_body(sb),
        b.subrange(62, 78) == u128_le(checksum_of(spec_encode_body(sb))),
{
    assert(b.subrange(0, 8) =~= magic_bytes());
    assert(b.subrange(8, 12) =~= u32_le(sb.version));
    assert(b.subrange(13, 21) =~= u64_le(sb.total_pages));
    assert(b.subrange(21, 29) =~= u64_le(sb.tx_id));
    assert(b.subrange(29, 37) =~= u64_le(sb.state_start_page));
    assert(b.subrange(37, 45) =~= u64_le(sb.state_len));
    assert(b.subrange(45, 61) =~= u128_le(sb.state_checksum));
    assert(b.subrange(0, 62) =~= spec_encode_body(sb));
    assert(b.subrange(62, 78) =~= u128_le(checksum_of(spec_encode_body(sb))));
}

/// Reading little-endian fields back out of arbitrary bytes and re-encoding
/// them reproduces the bytes.
proof fn lemma_le_inverses(b: Seq<u8>)
    requires
        b.len() == SUPERBLOCK_LEN,
    ensures
        u32_le(u32_from_le(b.subrange(8, 12))) == b.subrange(8, 12),
        u64_le(u64_from_le(b.subrange(13, 21))) == b.subrange(13, 21),
        u64_le(u64_from_le(b.subrange(21, 29))) == b.subrange(21, 29),
        u64_le(u64_from_le(b.subrange(29, 37))) == b.subrange(29, 37),
        u64_le(u64_from_le(b.subrange(37, 45))) == b.subrange(37, 45),
        u128_le(u128_from_le(b.subrange(45, 61))) == b.subrange(45, 61),
{
    lemma_u32_le_inverse(b.subrange(8, 12));
    lemma_u64_le_inverse(b.subrange(13, 21));
    lemma_u64_le_inverse(b.subrange(21, 29));
    lemma_u64_le_inverse(b.subrange(29, 37));
    lemma_u64_le_inverse(b.subrange(37, 45));
    lemma_u128_le_inverse(b.subrange(45, 61));
}

pub proof fn lemma_u32_le_inverse(s: Seq<u8>)
    requires
        s.len() == 4,
    ensures
        u32_le(u32_from_le(s)) == s,
{
    let b0 = s[0];
    let b1 = s[1];
    let b2 = s[2];
    let b3 = s[3];
    let x = u32_from_le(s);
    assert(x == (b0 as u32) | ((b1 as u32) << 8) | ((b2 as u32) << 16) | ((b3 as u32) << 24));
    assert({
        let y = (b0 as u32) | ((b1 as u32) << 8) | ((b2 as u32) << 16) | ((b3 as u32) << 24);
        (y & 0xff) as u8 == b0 && ((y >> 8) & 0xff) as u8 == b1 && ((y >> 16) & 0xff) as u8 == b2
            && ((y >> 24) & 0xff) as u8 == b3
    }) by (bit_vector);
    assert(u32_le(x) =~= s);
}

pub proof fn lemma_u64_le_inverse(s: Seq<u8>)
    requires
        s.len() == 8,
    ensures
        u64_le(u64_from_le(s)) == s,
{
    let b0 = s[0];
    let b1 = s[1];
    let b2 = s[2];
    let b3 = s[3];
    let b4 = s[4];
    let b5 = s[5];
    let b6 = s[6];
    let b7 = s[7];
    let x = u64_from_le(s);
    assert(x == (b0 as u64) | ((b1 as u64) << 8) | ((b2 as u64) << 16) | ((b3 as u64) << 24) | ((
    b4 as u64) << 32) | ((b5 as u64) << 40) | ((b6 as u64) << 48) | ((b7 as u64) << 56));
    assert({
        let y = (b0 as u64) | ((b1 as u64) << 8) | ((b2 as u64) << 16) | ((b3 as u64) << 24) | ((
        b4 as u64) << 32) | ((b5 as u64) << 40) | ((b6 as u64) << 48) | ((b7 as u64) << 56);
        (y & 0xff) as u8 == b0 && ((y >> 8) & 0xff) as u8 == b1 && ((y >> 16) & 0xff) as u8 == b2
            && ((y >> 24) & 0xff) as u8 == b3 && ((y >> 32) & 0xff) as u8 == b4 && ((y >> 40)
            & 0xff) as u8 == b5 && ((y >> 48) & 0xff) as u8 == b6 && ((y >> 56) & 0xff) as u8 == b7
    }) by (bit_vector);
    assert(u64_le(x) =~= s);
}

pub proof fn lemma_u128_le_inverse(s: Seq<u8>)
    requires
        s.len() == 16,
    ensures
        u128_le(u128_from_le(s)) == s,
{
    let lo = u64_from_le(s.subrange(0, 8));
    let hi = u64_from_le(s.subrange(8, 16));
    let x = u128_from_le(s);
    assert(x == (lo as u128) | ((hi as u128) << 64));
    assert({
        let y = (lo as u128) | ((hi as u128) << 64);
        (y as u64) == lo && ((y >> 64) as u64) == hi
    }) by (bit_vector);
    lemma_u64_le_inverse(s.subrange(0, 8));
    lemma_u64_le_inverse(s.subrange(8, 16));
    assert(u128_le(x) =~= s);
}

/// Equal encodings come from equal records: the encoding is injective.
pub proof fn lemma_encoding_injective(sb1: Superblock, sb2: Superblock)
    requires
        spec_encode_superblock(sb1) == spec_encode_superblock(sb2),
    ensures
        sb1 == sb2,
{
    let b = spec_encode_superblock(sb1);
    lemma_superblock_fields(b, sb1);
    lemma_superblock_fields(b, sb2);
    lemma_u32_le_roundtrip(sb1.version);
    lemma_u32_le_roundtrip(sb2.version);
    lemma_u64_le_roundtrip(sb1.total_pages);
    lemma_u64_le_roundtrip(sb2.total_pages);
    lemma_u64_le_roundtrip(sb1.tx_id);
    lemma_u64_le_roundtrip(sb2.tx_id);
    lemma_u64_le_roundtrip(sb1.state_start_page);
    lemma_u64_le_roundtrip(sb2.state_start_page);
    lemma_u64_le_roundtrip(sb1.state_len);
    lemma_u64_le_roundtrip(sb2.state_len);
    lemma_u128_le_roundtrip(sb1.state_checksum);
    lemma_u128_le_roundtrip(sb2.state_checksum);
}

/// An encoded current-version record never reads as a newer format.
pub proof fn lemma_encoded_not_newer(sb: Superblock)
    requires
        sb.version == FORMAT_VERSION,
    ensures
        !slot_reads_newer(spec_encode_superblock(sb)),
{
    let b = spec_encode_superblock(sb);
    lemma_superblock_fields(b, sb);
    lemma_u32_le_roundtrip(sb.version);
}

/// Recovery over the two decoded slots: choose the valid record with the
/// greatest transaction id; a newer-format record demands an upgrade; two
/// invalid slots leave the store unrecoverable.
pub fn recover_slots(a: SlotDecode, b: SlotDecode) -> (r: Result<Superblock, StorageError>)
    ensures
        ({
            match (a, b) {
                (SlotDecode::Newer(v), _) => r == Err::<Superblock, StorageError>(
                    StorageError::UpgradeRequired(v),
                ),
                (_, SlotDecode::Newer(v)) => r == Err::<Superblock, StorageError>(
                    StorageError::UpgradeRequired(v),
                ),
                (SlotDecode::Valid(x), SlotDecode::Valid(y)) => r == Ok::<
                    Superblock,
                    StorageError,
                >(
                    if x.tx_id >= y.tx_id {
                        x
                    } else {
                        y
                    },
                ),
                (SlotDecode::Valid(x), SlotDecode::Invalid) => r == Ok::<Superblock, StorageError>(
                    x,
                ),
                (SlotDecode::Invalid, SlotDecode::Valid(y)) => r == Ok::<Superblock, StorageError>(
                    y,
                ),
                (SlotDecode::Invalid, SlotDecode::Invalid) => r == Err::<Superblock, StorageError>(
                    StorageError::Corrupted,
                ),
            }
        }),
{
    match (a, b) {
        (SlotDecode::Newer(v), _) => Err(StorageError::UpgradeRequired(v)),
        (_, SlotDecode::Newer(v)) => Err(StorageError::UpgradeRequired(v)),
        (SlotDecode::Valid(x), SlotDecode::Valid(y)) => {
            if x.tx_id >= y.tx_id {
                Ok(x)
            } else {
                Ok(y)
            }
        },
        (SlotDecode::Valid(x), SlotDecode::Invalid) => Ok(x),
        (SlotDecode::Invalid, SlotDecode::Valid(y)) => Ok(y),
        (SlotDecode::Invalid, SlotDecode::Invalid) => Err(StorageError::Corrupted),
    }
}

} // verus!
