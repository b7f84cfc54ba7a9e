use vstd::prelude::*;

use crate::checksum::{checksum, checksum_of};
use crate::seqs::index_of_first;
use crate::errors::StorageError;
use crate::file::{write_at, MemoryFs, MemoryLockFile};
use crate::state::{
    decode_catalog, def_matches, encode_catalog, index_of_def, interleave,
    lemma_index_of_def_bounds, recs_of, spec_encode_catalog, spec_header, table_records, Catalog,
    TableDef,
};
use crate::bytes::list_encodable;
use crate::superblock::{
    decode_superblock, encode_superblock, lemma_encoded_not_newer, lemma_encoding_injective,
    lemma_superblock_fields, recover_slots, slot_reads_newer, spec_encode_superblock, SlotDecode,
    Superblock, FORMAT_VERSION, SUPERBLOCK_LEN,
};
use crate::table::{ReadOnlyTable, Table};
use crate::tree::Tree;

verus! {

/// Byte offset of superblock slot A.
pub const SLOT_A_OFFSET: u64 = 0;

/// Byte offset of superblock slot B. Both slots live inside the two reserved
/// pages, whose smallest possible extent is two kibibyte pages.
pub const SLOT_B_OFFSET: u64 = 1024;

/// The slot the committing transaction writes: A for even ids, B for odd.
pub open spec fn slot_offset(tx: u64) -> int {
    if tx % 2 == 0 {
        SLOT_A_OFFSET as int
    } else {
        SLOT_B_OFFSET as int
    }
}

/// The slot the committing transaction leaves alone.
pub open spec fn other_offset(tx: u64) -> int {
    if tx % 2 == 0 {
        SLOT_B_OFFSET as int
    } else {
        SLOT_A_OFFSET as int
    }
}

/// The 78 bytes of the slot at `off`.
pub open spec fn slot_bytes(img: Seq<u8>, off: int) -> Seq<u8> {
    img.subrange(off, off + SUPERBLOCK_LEN)
}

/// The inactive slot neither reads as a newer format nor encodes a
/// superblock at or past transaction `tx`: recovery can never prefer it.
pub open spec fn other_slot_harmless(s: Seq<u8>, tx: u64) -> bool {
    &&& !slot_reads_newer(s)
    &&& forall|sb2: Superblock|
        s == #[trigger] spec_encode_superblock(sb2) && sb2.version == FORMAT_VERSION
            ==> sb2.tx_id < tx
}

/// The image holds committed state `c` under superblock `sb`: the slot of
/// `sb`'s transaction carries `sb`'s encoding, the state blob it points at
/// carries `c`'s encoding under the recorded checksum, and the inactive slot
/// cannot win recovery.
#[verifier::opaque]
pub open spec fn image_committed(img: Seq<u8>, sb: Superblock, c: Catalog) -> bool {
    let ps = (1u64 << sb.page_size_log2) as int;
    let off = sb.state_start_page * ps;
    &&& sb.version == FORMAT_VERSION
    &&& 10 <= sb.page_size_log2 <= 20
    &&& sb.state_start_page >= 2
    &&& off + sb.state_len <= img.len()
    &&& img.len() <= usize::MAX
    &&& slot_bytes(img, slot_offset(sb.tx_id)) == spec_encode_superblock(sb)
    &&& other_slot_harmless(slot_bytes(img, other_offset(sb.tx_id)), sb.tx_id)
    &&& img.subrange(off, off + sb.state_len) == spec_encode_catalog(c)
    &&& sb.state_checksum == checksum_of(spec_encode_catalog(c))
    &&& sb.state_len == spec_encode_catalog(c).len()
    &&& c.wf()
    &&& list_encodable(recs_of(c.defs()))
}

/// A crash between the data flush and the inactive slot's write leaves the
/// prior committed state recoverable: if the surviving image still carries
/// the old slot and blob, and whatever reached the other slot cannot win
/// recovery, the image still commits to the old state.
pub proof fn lemma_atomic_commit(
    img_pre: Seq<u8>,
    img_crash: Seq<u8>,
    sb: Superblock,
    c: Catalog,
)
    requires
        image_committed(img_pre, sb, c),
        img_crash.len() >= img_pre.len(),
        img_crash.len() <= usize::MAX,
        slot_bytes(img_crash, slot_offset(sb.tx_id)) == slot_bytes(img_pre, slot_offset(sb.tx_id)),
        ({
            let ps = (1u64 << sb.page_size_log2) as int;
            let off = sb.state_start_page * ps;
            img_crash.subrange(off, off + sb.state_len) == img_pre.subrange(
                off,
                off + sb.state_len,
            )
        }),
        other_slot_harmless(slot_bytes(img_crash, other_offset(sb.tx_id)), sb.tx_id),
    ensures
        image_committed(img_crash, sb, c),
{
    reveal(image_committed);
}

/// A positional write leaves every byte range it does not cover unchanged.
pub proof fn lemma_write_preserves(s: Seq<u8>, off: nat, data: Seq<u8>, lo: int, hi: int)
    requires
        0 <= lo <= hi <= s.len(),
        hi <= off || off + data.len() <= lo,
    ensures
        write_at(s, off, data).subrange(lo, hi) == s.subrange(lo, hi),
{
    assert(write_at(s, off, data).subrange(lo, hi) =~= s.subrange(lo, hi));
}

/// A positional write puts exactly its data at its offset.
pub proof fn lemma_write_reads_back(s: Seq<u8>, off: nat, data: Seq<u8>)
    ensures
        write_at(s, off, data).subrange(off as int, (off + data.len()) as int) == data,
        write_at(s, off, data).len() >= s.len(),
        write_at(s, off, data).len() >= off + data.len(),
        write_at(s, off, data).len() == if off + data.len() > s.len() {
            off + data.len()
        } else {
            s.len()
        },
    decreases 0int,
{
    assert(write_at(s, off, data).subrange(off as int, (off + data.len()) as int) =~= data);
}

/// A page size is two raised to a superblock's recorded exponent.
pub proof fn lemma_ps_bounds(l: u8)
    requires
        10 <= l <= 20,
    ensures
        1024 <= (1u64 << l) <= 1048576,
{
    assert(10 <= l <= 20 ==> 1024 <= (1u64 << l) && (1u64 << l) <= 1048576) by (bit_vector);
}

/// Whole pages cover the byte length they were carved from.
pub proof fn lemma_pages_cover(len: int, ps: int, pages: int)
    requires
        ps >= 1,
        len >= 0,
        pages == len / ps + if len % ps == 0 {
            0int
        } else {
            1int
        },
    ensures
        pages * ps >= len,
        pages >= 0,
{
    assert(len == (len / ps) * ps + len % ps && 0 <= len % ps < ps && len / ps >= 0)
        by (nonlinear_arith)
        requires
            ps >= 1,
            len >= 0,
    ;
    if len % ps == 0 {
    } else {
        assert((len / ps + 1) * ps == (len / ps) * ps + ps) by (nonlinear_arith);
    }
}

/// Multiplication by a positive page size keeps order.
pub proof fn lemma_mul_mono(a: int, b: int, c: int)
    requires
        a <= b,
        c >= 0,
    ensures
        a * c <= b * c,
{
    assert(a <= b && c >= 0 ==> a * c <= b * c) by (nonlinear_arith);
}

/// Multiplication distributes over the page count sum.
pub proof fn lemma_mul_distrib(a: int, b: int, c: int)
    ensures
        (a + b) * c == a * c + b * c,
{
    assert((a + b) * c == a * c + b * c) by (nonlinear_arith);
}

/// Pages needed to hold `len` bytes.
pub open spec fn pages_of(len: u64, ps: u64) -> int {
    len as int / ps as int + if len as int % ps as int == 0 {
        0int
    } else {
        1int
    }
}

/// The start page the placement rule picks for the next state blob: past the
/// committed blob when that blob sits at the low pages or the low gap is too
/// small, else the low pages.
pub open spec fn next_blob_start(old_start: u64, old_len: u64, blen: u64, ps: u64) -> int {
    if old_start == 2 {
        2 + pages_of(old_len, ps)
    } else if pages_of(blen, ps) <= old_start - 2 {
        2
    } else {
        old_start + pages_of(old_len, ps)
    }
}

/// Whether a state blob of `blen` bytes fits at its placement within the
/// addressable file: the one way a commit can fail.
pub open spec fn placement_fits(old_start: u64, old_len: u64, blen: u64, ps: u64) -> bool {
    next_blob_start(old_start, old_len, blen, ps) * ps + blen <= usize::MAX
}

/// Chooses where the next state blob lands: the lowest pages past the two
/// reserved ones that overlap neither the committed blob nor the reserved
/// region, growing the file as needed. Yields the start page, its byte
/// offset, and the page count of the new blob; succeeds exactly when the
/// placement fits the addressable file.
fn plan_placement(old_start: u64, old_len: u64, blen: u64, ps: u64) -> (r: Option<(u64, u64, u64)>)
    requires
        1024 <= ps <= 1048576,
        old_start >= 2,
        old_start as int * ps as int + old_len <= usize::MAX,
    ensures
        (r is Some) == placement_fits(old_start, old_len, blen, ps),
        r matches Some(t) ==> {
            let ooff = old_start as int * ps as int;
            &&& t.0 >= 2
            &&& t.0 == next_blob_start(old_start, old_len, blen, ps)
            &&& t.1 == t.0 as int * ps as int
            &&& t.1 >= 2048
            &&& t.1 + blen <= usize::MAX
            &&& (t.1 >= ooff + old_len || t.1 + blen <= ooff)
            &&& t.0 + t.2 <= u64::MAX
        },
{
    proof {
        assert(old_len / ps <= u64::MAX / 1024 && blen / ps <= u64::MAX / 1024)
            by (nonlinear_arith)
            requires
                ps >= 1024,
        ;
        assert(old_start <= u64::MAX / 1024) by (nonlinear_arith)
            requires
                old_start as int * ps as int <= u64::MAX,
                ps >= 1024,
        ;
    }
    let old_pages = old_len / ps + if old_len % ps == 0 {
        0
    } else {
        1
    };
    let new_pages = blen / ps + if blen % ps == 0 {
        0
    } else {
        1
    };
    let new_start: u64;
    if old_start == 2 {
        new_start = 2 + old_pages;
    } else if new_pages <= old_start - 2 {
        new_start = 2;
    } else {
        new_start = old_start + old_pages;
    }
    proof {
        assert(new_start as int == next_blob_start(old_start, old_len, blen, ps));
    }
    if new_start > u64::MAX / ps {
        proof {
            assert(new_start as int * ps as int > u64::MAX) by (nonlinear_arith)
                requires
                    new_start as int >= u64::MAX as int / ps as int + 1,
                    1024 <= ps,
            ;
            assert(usize::MAX <= u64::MAX);
        }
        return None;
    }
    proof {
        assert(new_start as int * ps as int <= u64::MAX) by (nonlinear_arith)
            requires
                new_start <= u64::MAX / ps,
                1 <= ps,
        ;
    }
    let noff = new_start * ps;
    if noff > u64::MAX - blen {
        proof {
            assert(usize::MAX <= u64::MAX);
        }
        return None;
    }
    if noff + blen > usize::MAX as u64 {
        return None;
    }
    proof {
        assert(new_pages <= u64::MAX - new_start);
    }
    proof {
        let gps = ps as int;
        let ooff = old_start as int * gps;
        lemma_mul_mono(2, new_start as int, gps);
        lemma_pages_cover(old_len as int, gps, old_pages as int);
        lemma_pages_cover(blen as int, gps, new_pages as int);
        if old_start == 2 {
            lemma_mul_distrib(2, old_pages as int, gps);
            assert(noff as int >= ooff + old_len);
        } else if new_pages <= old_start - 2 {
            lemma_mul_distrib(2, new_pages as int, gps);
            lemma_mul_mono(2 + new_pages as int, old_start as int, gps);
            assert(noff as int + blen <= ooff);
        } else {
            lemma_mul_distrib(old_start as int, old_pages as int, gps);
            assert(noff as int >= ooff + old_len);
        }
    }
    Some((new_start, noff, new_pages))
}

/// The two writes of the commit protocol carry a committed image for the
/// old state into a committed image for the new state, leaving the old
/// slot's and the old blob's bytes untouched.
#[verifier::rlimit(100)]
proof fn lemma_commit_image(
    img0: Seq<u8>,
    img1: Seq<u8>,
    img2: Seq<u8>,
    blob: Seq<u8>,
    enc: Seq<u8>,
    sb_old: Superblock,
    sb_new: Superblock,
    c_old: Catalog,
    c_new: Catalog,
)
    requires
        image_committed(img0, sb_old, c_old),
        sb_new.version == FORMAT_VERSION,
        sb_new.page_size_log2 == sb_old.page_size_log2,
        sb_new.tx_id == sb_old.tx_id + 1,
        sb_new.state_start_page >= 2,
        blob == spec_encode_catalog(c_new),
        enc == spec_encode_superblock(sb_new),
        sb_new.state_checksum == checksum_of(blob),
        sb_new.state_len == blob.len(),
        c_new.wf(),
        list_encodable(recs_of(c_new.defs())),
        ({
            let ps = (1u64 << sb_new.page_size_log2) as int;
            let noff = sb_new.state_start_page * ps;
            let ooff = sb_old.state_start_page * ps;
            let oolen = sb_old.state_len as int;
            &&& noff >= 2048
            &&& noff + blob.len() <= usize::MAX
            &&& (noff >= ooff + oolen || noff + blob.len() <= ooff)
            &&& img1 == write_at(img0, noff as nat, blob)
        }),
        img2 == write_at(img1, (slot_offset(sb_new.tx_id)) as nat, enc),
    ensures
        image_committed(img2, sb_new, c_new),
        slot_bytes(img2, slot_offset(sb_old.tx_id)) == slot_bytes(img0, slot_offset(sb_old.tx_id)),
        ({
            let ps = (1u64 << sb_old.page_size_log2) as int;
            let ooff = sb_old.state_start_page * ps;
            img2.subrange(ooff, ooff + sb_old.state_len) == img0.subrange(
                ooff,
                ooff + sb_old.state_len,
            )
        }),
        img2.len() >= img0.len(),
{
    reveal(image_committed);
    lemma_ps_bounds(sb_new.page_size_log2);
    let ps = (1u64 << sb_new.page_size_log2) as int;
    let noff = sb_new.state_start_page * ps;
    let ooff = sb_old.state_start_page * ps;
    let oolen = sb_old.state_len as int;
    let gslot = slot_offset(sb_new.tx_id);
    let goslot = slot_offset(sb_old.tx_id);
    lemma_superblock_fields(enc, sb_new);
    lemma_write_reads_back(img0, noff as nat, blob);
    lemma_write_reads_back(img1, gslot as nat, enc);
    lemma_mul_mono(2, sb_old.state_start_page as int, ps);
    assert(goslot == other_offset(sb_new.tx_id));
    assert(gslot == 0 || gslot == 1024);
    assert(goslot == 0 || goslot == 1024);
    assert(gslot != goslot);
    // the new slot's bytes
    assert(slot_bytes(img2, gslot) == enc) by {
        assert(slot_bytes(img2, gslot) =~= img2.subrange(gslot, gslot + enc.len()));
    }
    // the new blob survives the slot write
    lemma_write_preserves(img1, gslot as nat, enc, noff, noff + blob.len());
    assert(img2.subrange(noff, noff + blob.len()) == blob);
    // the old slot survives both writes
    lemma_write_preserves(img0, noff as nat, blob, goslot, goslot + 78);
    lemma_write_preserves(img1, gslot as nat, enc, goslot, goslot + 78);
    assert(slot_bytes(img2, goslot) == slot_bytes(img0, goslot));
    // the old blob survives both writes
    lemma_write_preserves(img0, noff as nat, blob, ooff, ooff + oolen);
    lemma_write_preserves(img1, gslot as nat, enc, ooff, ooff + oolen);
    assert(img2.subrange(ooff, ooff + oolen) == img0.subrange(ooff, ooff + oolen));
    // the old slot cannot win recovery against the new transaction
    assert(slot_bytes(img2, goslot) == spec_encode_superblock(sb_old));
    lemma_encoded_not_newer(sb_old);
    assert forall|sb3: Superblock|
        slot_bytes(img2, goslot) == #[trigger] spec_encode_superblock(sb3) && sb3.version
            == FORMAT_VERSION implies sb3.tx_id < sb_new.tx_id by {
        lemma_encoding_injective(sb3, sb_old);
    }
    assert(image_committed(img2, sb_new, c_new));
}

/// Index of the first registry entry equal to `tx`, or `-1` if none is.
pub open spec fn index_of_reader(s: Seq<u64>, tx: u64) -> int
    decreases s.len(),
{
    if s.len() == 0 {
        -1
    } else if s[0] == tx {
        0
    } else {
        let r = index_of_reader(s.drop_first(), tx);
        if r < 0 {
            -1
        } else {
            r + 1
        }
    }
}

pub proof fn lemma_index_of_reader_bounds(s: Seq<u64>, tx: u64)
    ensures
        index_of_reader(s, tx) >= 0 ==> index_of_reader(s, tx) < s.len() && s[index_of_reader(
            s,
            tx,
        )] == tx,
        index_of_reader(s, tx) < 0 ==> forall|i: int| 0 <= i < s.len() ==> s[i] != tx,
    decreases s.len(),
{
    if s.len() > 0 && s[0] != tx {
        lemma_index_of_reader_bounds(s.drop_first(), tx);
        let r = index_of_reader(s.drop_first(), tx);
        if r >= 0 {
            assert(s.drop_first()[r] == s[r + 1]);
        } else {
            assert forall|i: int| 0 <= i < s.len() implies s[i] != tx by {
                if i > 0 {
                    assert(s.drop_first()[i - 1] == s[i]);
                }
            }
        }
    }
}

pub proof fn lemma_index_of_reader_match(s: Seq<u64>, tx: u64, i: int)
    requires
        0 <= i < s.len(),
        s[i] == tx,
        forall|j: int| 0 <= j < i ==> s[j] != tx,
    ensures
        index_of_reader(s, tx) == i,
    decreases s.len(),
{
    if s[0] != tx {
        assert(s.drop_first()[i - 1] == s[i]);
        assert forall|j: int| 0 <= j < i - 1 implies s.drop_first()[j] != tx by {
            assert(s.drop_first()[j] == s[j + 1]);
        }
        lemma_index_of_reader_match(s.drop_first(), tx, i - 1);
    }
}

/// An embedded, single-file, copy-on-write transactional key-value store
/// over the in-memory file capability: named tables of byte keys and values,
/// a single writer beside any number of snapshot readers, and a two-slot
/// superblock commit protocol that keeps every commit atomic.
pub struct Database {
    file: MemoryLockFile,
    page_size: u64,
    page_size_log2: u8,
    tx_id: u64,
    state_start_page: u64,
    state_len: u64,
    state_checksum: u128,
    total_pages: u64,
    committed: Catalog,
    readers: Vec<u64>,
    writer_active: bool,
}

/// A read transaction: a registered reader pinned to the snapshot taken at
/// begin. Later commits never change what it observes.
pub struct ReadTransaction {
    snapshot: Catalog,
    tx_id: u64,
}

/// A write transaction: the unique ticket that may mutate, holding a forked
/// copy of the master catalog until commit or abort.
pub struct WriteTransaction {
    working: Catalog,
    tx_id: u64,
}

impl Database {
    pub closed spec fn file_view(&self) -> Seq<u8> {
        self.file@
    }

    pub closed spec fn fs_spec(&self) -> MemoryFs {
        self.file.fs_view()
    }

    pub closed spec fn handle_spec(&self) -> int {
        self.file.path_handle()
    }

    pub closed spec fn catalog_spec(&self) -> Catalog {
        self.committed
    }

    pub closed spec fn sb_spec(&self) -> Superblock {
        Superblock {
            version: FORMAT_VERSION,
            page_size_log2: self.page_size_log2,
            total_pages: self.total_pages,
            tx_id: self.tx_id,
            state_start_page: self.state_start_page,
            state_len: self.state_len,
            state_checksum: self.state_checksum,
        }
    }

    pub closed spec fn tx_spec(&self) -> u64 {
        self.tx_id
    }

    pub closed spec fn page_size_spec(&self) -> u64 {
        self.page_size
    }

    pub closed spec fn readers_spec(&self) -> Seq<u64> {
        self.readers@
    }

    pub closed spec fn writer_spec(&self) -> bool {
        self.writer_active
    }

    pub closed spec fn wf(&self) -> bool {
        &&& self.file.wf()
        &&& self.page_size == (1u64 << self.page_size_log2)
        &&& image_committed(self.file_view(), self.sb_spec(), self.catalog_spec())
    }

    /// The committed state as every fresh reader will see it.
    pub open spec fn committed_matches(&self, c: &Catalog) -> bool {
        self.catalog_spec().matches(c)
    }
}

impl ReadTransaction {
    pub closed spec fn snapshot_spec(&self) -> Catalog {
        self.snapshot
    }

    pub closed spec fn tx_spec(&self) -> u64 {
        self.tx_id
    }

    pub open spec fn wf(&self) -> bool {
        self.snapshot_spec().wf()
    }
}

impl WriteTransaction {
    pub closed spec fn working_spec(&self) -> Catalog {
        self.working
    }

    pub closed spec fn tx_spec(&self) -> u64 {
        self.tx_id
    }

    pub open spec fn wf(&self) -> bool {
        self.working_spec().wf()
    }

    /// Opens a table under this write transaction, creating an empty one if
    /// absent. The table's tree moves into the handle until `close_table`
    /// brings it back. Opening an existing table with a codec fingerprint
    /// pair other than the one it was created with fails with
    /// `TableTypeMismatch`, and exactly then.
    pub fn open_table(
        &mut self,
        name: &[u8],
        system: bool,
        key_fingerprint: u64,
        value_fingerprint: u64,
    ) -> (r: Result<Table, StorageError>)
        requires
            old(self).wf(),
        ensures
            final(self).wf(),
            final(self).tx_spec() == old(self).tx_spec(),
            ({
                let ds = old(self).working_spec().defs();
                let i = index_of_def(ds, name@, system);
                if i >= 0 {
                    if ds[i].key_fingerprint == key_fingerprint && ds[i].value_fingerprint
                        == value_fingerprint {
                        &&& r matches Ok(t)
                        &&& t.wf() && t.name_spec() == name@ && t.system_spec() == system
                        &&& t.key_fingerprint_spec() == key_fingerprint
                        &&& t.value_fingerprint_spec() == value_fingerprint
                        &&& t.key_seq() == ds[i].tree.key_seq() && t.val_seq()
                            == ds[i].tree.val_seq()
                        &&& final(self).working_spec().defs() == ds.remove(i)
                    } else {
                        &&& r == Err::<Table, StorageError>(
                            StorageError::TableTypeMismatch {
                                expected_key: ds[i].key_fingerprint,
                                expected_value: ds[i].value_fingerprint,
                                actual_key: key_fingerprint,
                                actual_value: value_fingerprint,
                            },
                        )
                        &&& final(self).working_spec() == old(self).working_spec()
                    }
                } else {
                    &&& r matches Ok(t)
                    &&& t.wf() && t.name_spec() == name@ && t.system_spec() == system
                    &&& t.key_fingerprint_spec() == key_fingerprint
                    &&& t.value_fingerprint_spec() == value_fingerprint
                    &&& t.len_spec() == 0
                    &&& final(self).working_spec() == old(self).working_spec()
                }
            }),
    {
        let ghost pre = *self;
        match self.working.find(name, system) {
            Some(i) => {
                proof {
                    lemma_index_of_def_bounds(pre.working_spec().defs(), name@, system);
                }
                let kfp = self.working.tables[i].key_fingerprint;
                let vfp = self.working.tables[i].value_fingerprint;
                if kfp != key_fingerprint || vfp != value_fingerprint {
                    return Err(
                        StorageError::TableTypeMismatch {
                            expected_key: kfp,
                            expected_value: vfp,
                            actual_key: key_fingerprint,
                            actual_value: value_fingerprint,
                        },
                    );
                }
                let d = self.working.take_def(i);
                proof {
                    let ds = pre.working_spec().defs();
                    assert forall|x: int, y: int|
                        0 <= x < y < self.working_spec().defs().len() implies !((
                    #[trigger] self.working_spec().defs()[x]).name@ == (
                    #[trigger] self.working_spec().defs()[y]).name@
                        && self.working_spec().defs()[x].system
                        == self.working_spec().defs()[y].system) by {
                        let ox = if x < i {
                            x
                        } else {
                            x + 1
                        };
                        let oy = if y < i {
                            y
                        } else {
                            y + 1
                        };
                        assert(self.working_spec().defs()[x] == ds[ox]);
                        assert(self.working_spec().defs()[y] == ds[oy]);
                    }
                    assert forall|t: int|
                        0 <= t < self.working_spec().defs().len() implies (
                    #[trigger] self.working_spec().defs()[t]).tree.wf() by {
                        let ot = if t < i {
                            t
                        } else {
                            t + 1
                        };
                        assert(self.working_spec().defs()[t] == ds[ot]);
                    }
                    assert(ds[i as int].tree.wf());
                }
                Ok(Table::new(name, system, key_fingerprint, value_fingerprint, d.tree))
            },
            None => {
                Ok(Table::new(name, system, key_fingerprint, value_fingerprint, Tree::new()))
            },
        }
    }

    /// Closes a table, writing its tree back into the transaction's master.
    pub fn close_table(&mut self, t: Table)
        requires
            old(self).wf(),
            t.wf(),
        ensures
            final(self).wf(),
            final(self).tx_spec() == old(self).tx_spec(),
            ({
                let ds = old(self).working_spec().defs();
                let i = index_of_def(ds, t.name_spec(), t.system_spec());
                let n = final(self).working_spec().defs().len();
                &&& n > 0
                &&& ({
                    let d = final(self).working_spec().defs()[n - 1];
                    &&& d.name@ == t.name_spec()
                    &&& d.system == t.system_spec()
                    &&& d.key_fingerprint == t.key_fingerprint_spec()
                    &&& d.value_fingerprint == t.value_fingerprint_spec()
                    &&& d.tree.key_seq() == t.key_seq()
                    &&& d.tree.val_seq() == t.val_seq()
                })
                &&& (i >= 0 ==> final(self).working_spec().defs().drop_last() == ds.remove(i))
                &&& (i < 0 ==> final(self).working_spec().defs().drop_last() == ds)
            }),
    {
        let (name, system, kfp, vfp, tree) = t.into_parts();
        let d = TableDef {
            name,
            system,
            key_fingerprint: kfp,
            value_fingerprint: vfp,
            tree,
        };
        self.working.upsert(d);
        proof {
            let ds = old(self).working_spec().defs();
            let i = index_of_def(ds, t.name_spec(), t.system_spec());
            if i >= 0 {
                assert(self.working_spec().defs().drop_last() =~= ds.remove(i));
            } else {
                assert(self.working_spec().defs().drop_last() =~= ds);
            }
        }
    }
}

impl ReadTransaction {
    /// Opens a table of the pinned snapshot. A missing table reads as empty;
    /// a fingerprint pair other than the one the table was created with
    /// fails with `TableTypeMismatch`, and exactly then.
    pub fn open_table(
        &self,
        name: &[u8],
        system: bool,
        key_fingerprint: u64,
        value_fingerprint: u64,
    ) -> (r: Result<ReadOnlyTable, StorageError>)
        requires
            self.wf(),
        ensures
            ({
                let ds = self.snapshot_spec().defs();
                let i = index_of_def(ds, name@, system);
                if i >= 0 {
                    if ds[i].key_fingerprint == key_fingerprint && ds[i].value_fingerprint
                        == value_fingerprint {
                        &&& r matches Ok(t)
                        &&& t.wf()
                        &&& t.key_seq() == ds[i].tree.key_seq() && t.val_seq()
                            == ds[i].tree.val_seq()
                    } else {
                        r == Err::<ReadOnlyTable, StorageError>(
                            StorageError::TableTypeMismatch {
                                expected_key: ds[i].key_fingerprint,
                                expected_value: ds[i].value_fingerprint,
                                actual_key: key_fingerprint,
                                actual_value: value_fingerprint,
                            },
                        )
                    }
                } else {
                    r matches Ok(t) && t.wf() && t.len_spec() == 0
                }
            }),
    {
        match self.snapshot.find(name, system) {
            Some(i) => {
                proof {
                    lemma_index_of_def_bounds(self.snapshot_spec().defs(), name@, system);
                    assert(self.snapshot_spec().defs()[i as int].tree.wf());
                }
                let kfp = self.snapshot.tables[i].key_fingerprint;
                let vfp = self.snapshot.tables[i].value_fingerprint;
                if kfp != key_fingerprint || vfp != value_fingerprint {
                    return Err(
                        StorageError::TableTypeMismatch {
                            expected_key: kfp,
                            expected_value: vfp,
                            actual_key: key_fingerprint,
                            actual_value: value_fingerprint,
                        },
                    );
                }
                ReadOnlyTable::new(self.snapshot.tables[i].tree.duplicate())
            },
            None => ReadOnlyTable::new(Tree::new()),
        }
    }
}

impl Database {
    /// Registers a reader pinned to the current committed state.
    pub fn begin_read(&mut self) -> (r: ReadTransaction)
        requires
            old(self).wf(),
        ensures
            final(self).wf(),
            r.wf(),
            r.snapshot_spec().matches(&old(self).catalog_spec()),
            old(self).catalog_spec().matches(&r.snapshot_spec()),
            r.tx_spec() == old(self).tx_spec(),
            final(self).catalog_spec() == old(self).catalog_spec(),
            final(self).sb_spec() == old(self).sb_spec(),
            final(self).tx_spec() == old(self).tx_spec(),
            final(self).file_view() == old(self).file_view(),
            final(self).fs_spec() == old(self).fs_spec(),
            final(self).handle_spec() == old(self).handle_spec(),
            final(self).writer_spec() == old(self).writer_spec(),
            final(self).readers_spec() == old(self).readers_spec().push(old(self).tx_spec()),
    {
        proof {
            reveal(image_committed);
        }
        let snapshot = self.committed.duplicate();
        let tx_id = self.tx_id;
        self.readers.push(tx_id);
        ReadTransaction { snapshot, tx_id }
    }

    /// Unregisters a reader: removes its first registry entry, so the next
    /// commit may reclaim further pages. Unregistering an unknown reader
    /// changes nothing.
    pub fn end_read(&mut self, r: ReadTransaction)
        requires
            old(self).wf(),
        ensures
            final(self).wf(),
            final(self).catalog_spec() == old(self).catalog_spec(),
            final(self).sb_spec() == old(self).sb_spec(),
            final(self).tx_spec() == old(self).tx_spec(),
            final(self).file_view() == old(self).file_view(),
            final(self).fs_spec() == old(self).fs_spec(),
            final(self).handle_spec() == old(self).handle_spec(),
            final(self).writer_spec() == old(self).writer_spec(),
            ({
                let i = index_of_reader(old(self).readers_spec(), r.tx_spec());
                &&& i >= 0 ==> final(self).readers_spec() == old(self).readers_spec().remove(i)
                &&& i < 0 ==> final(self).readers_spec() == old(self).readers_spec()
            }),
    {
        let tx = r.tx_id;
        let mut found: Option<usize> = None;
        let mut i: usize = 0;
        while i < self.readers.len()
            invariant
                0 <= i <= self.readers@.len(),
                found is None ==> forall|j: int| 0 <= j < i ==> self.readers@[j] != tx,
                found matches Some(k) ==> k < i <= self.readers@.len() && self.readers@[k as int]
                    == tx && (forall|j: int| 0 <= j < k ==> self.readers@[j] != tx),
            decreases self.readers@.len() - i,
        {
            if self.readers[i] == tx && found.is_none() {
                found = Some(i);
            }
            i += 1;
        }
        match found {
            Some(j) => {
                proof {
                    lemma_index_of_reader_match(self.readers@, tx, j as int);
                }
                self.readers.remove(j);
            },
            None => {
                proof {
                    lemma_index_of_reader_bounds(self.readers@, tx);
                    if index_of_reader(self.readers@, tx) >= 0 {
                        assert(false);
                    }
                }
            },
        }
    }

    /// Acquires the single-writer ticket, forking the master catalog. While
    /// a writer is active the call yields nothing; callers block by retrying
    /// until the writer commits or aborts.
    pub fn begin_write(&mut self) -> (r: Option<WriteTransaction>)
        requires
            old(self).wf(),
        ensures
            final(self).wf(),
            final(self).catalog_spec() == old(self).catalog_spec(),
            final(self).sb_spec() == old(self).sb_spec(),
            final(self).tx_spec() == old(self).tx_spec(),
            final(self).file_view() == old(self).file_view(),
            final(self).fs_spec() == old(self).fs_spec(),
            final(self).handle_spec() == old(self).handle_spec(),
            final(self).readers_spec() == old(self).readers_spec(),
            old(self).writer_spec() ==> r is None && final(self).writer_spec(),
            !old(self).writer_spec() && old(self).tx_spec() < u64::MAX ==> {
                &&& r matches Some(w)
                &&& w.wf()
                &&& w.working_spec().matches(&old(self).catalog_spec())
                &&& old(self).catalog_spec().matches(&w.working_spec())
                &&& w.tx_spec() == old(self).tx_spec() + 1
                &&& final(self).writer_spec()
            },
    {
        if self.writer_active || self.tx_id == u64::MAX {
            if self.tx_id == u64::MAX {
                return None;
            }
            return None;
        }
        proof {
            reveal(image_committed);
        }
        let working = self.committed.duplicate();
        let tx_id = self.tx_id + 1;
        self.writer_active = true;
        Some(WriteTransaction { working, tx_id })
    }

    /// Drops a write transaction without committing: the master is
    /// untouched, and pages it built become reclaimable.
    pub fn abort(&mut self, txn: WriteTransaction)
        requires
            old(self).wf(),
        ensures
            final(self).wf(),
            final(self).catalog_spec() == old(self).catalog_spec(),
            final(self).sb_spec() == old(self).sb_spec(),
            final(self).tx_spec() == old(self).tx_spec(),
            final(self).file_view() == old(self).file_view(),
            final(self).fs_spec() == old(self).fs_spec(),
            final(self).handle_spec() == old(self).handle_spec(),
            final(self).readers_spec() == old(self).readers_spec(),
            !final(self).writer_spec(),
    {
        self.writer_active = false;
    }

    /// Commits a write transaction, in protocol order: write the new state
    /// blob to fresh pages, flush data, write the inactive superblock slot,
    /// then fence durably unless the caller elected a non-durable commit.
    /// The pages of the superseded blob and the previously active slot are
    /// never touched, so a crash anywhere before the slot write leaves the
    /// prior committed state recoverable; afterward the new state is
    /// committed. On failure nothing has been promoted and the transaction
    /// is dropped as an abort.
    #[verifier::rlimit(100)]
    pub fn commit(&mut self, txn: WriteTransaction, durable: bool) -> (r: Result<
        (),
        StorageError,
    >)
        requires
            old(self).wf(),
            txn.wf(),
            txn.tx_spec() == old(self).tx_spec() + 1,
            old(self).tx_spec() < u64::MAX,
        ensures
            final(self).wf(),
            !final(self).writer_spec(),
            final(self).readers_spec() == old(self).readers_spec(),
            final(self).fs_spec().paths() == old(self).fs_spec().paths(),
            final(self).handle_spec() == old(self).handle_spec(),
            final(self).page_size_spec() == old(self).page_size_spec(),
            // commits are owed success: the one failure is a state blob that
            // no longer fits the addressable file
            (r is Err) == !placement_fits(
                old(self).sb_spec().state_start_page,
                old(self).sb_spec().state_len,
                spec_encode_catalog(txn.working_spec()).len() as u64,
                old(self).page_size_spec(),
            ),
            r is Err ==> final(self).catalog_spec() == old(self).catalog_spec()
                && final(self).sb_spec() == old(self).sb_spec()
                && final(self).file_view() == old(self).file_view(),
            r is Ok ==> {
                &&& final(self).catalog_spec() == txn.working_spec()
                &&& final(self).tx_spec() == old(self).tx_spec() + 1
                &&& final(self).file_view().len() >= old(self).file_view().len()
                // the previously active slot is untouched
                &&& slot_bytes(final(self).file_view(), slot_offset(old(self).tx_spec()))
                    == slot_bytes(old(self).file_view(), slot_offset(old(self).tx_spec()))
                // the superseded blob's pages are untouched: they are freed
                // only logically, and never handed out before the commit
                // point promotes the new state
                &&& ({
                    let ps = (1u64 << old(self).sb_spec().page_size_log2) as int;
                    let ooff = old(self).sb_spec().state_start_page * ps;
                    final(self).file_view().subrange(ooff, ooff + old(self).sb_spec().state_len)
                        == old(self).file_view().subrange(
                        ooff,
                        ooff + old(self).sb_spec().state_len,
                    )
                })
            },
    {
        let ghost pre = *self;
        let blob = encode_catalog(&txn.working);
        let tag = checksum(blob.as_slice());
        let ps = self.page_size;
        proof {
            reveal(image_committed);
            lemma_ps_bounds(self.page_size_log2);
            assert(ps >= 1024);
            assert(10 <= self.page_size_log2 <= 20);
            assert(self.state_start_page >= 2);
            assert(self.state_start_page as int * ps as int + self.state_len <= usize::MAX);
        }
        let old_len = self.state_len;
        let old_start = self.state_start_page;
        let blen = blob.len() as u64;
        proof {
            assert(usize::MAX <= u64::MAX);
            assert(blen == spec_encode_catalog(txn.working_spec()).len() as u64);
        }
        let (new_start, noff, new_pages) = match plan_placement(old_start, old_len, blen, ps) {
            Some(t) => t,
            None => {
                self.writer_active = false;
                return Err(StorageError::Io);
            },
        };
        let ghost img0 = self.file@;
        match self.file.write(noff, blob.as_slice()) {
            Ok(()) => (),
            Err(_) => {
                self.writer_active = false;
                return Err(StorageError::Io);
            },
        }
        let _ = self.file.sync_data();
        let ghost img1 = self.file@;
        let new_tx = self.tx_id + 1;
        let total = new_start + new_pages;
        let sb_new = Superblock {
            version: FORMAT_VERSION,
            page_size_log2: self.page_size_log2,
            total_pages: total,
            tx_id: new_tx,
            state_start_page: new_start,
            state_len: blen,
            state_checksum: tag,
        };
        let enc = encode_superblock(&sb_new);
        let slot_off: u64 = if new_tx % 2 == 0 {
            SLOT_A_OFFSET
        } else {
            SLOT_B_OFFSET
        };
        match self.file.write(slot_off, enc.as_slice()) {
            Ok(()) => (),
            Err(_) => {
                self.writer_active = false;
                return Err(StorageError::Io);
            },
        }
        if durable {
            let _ = self.file.fsync();
        }
        let ghost img2 = self.file@;
        self.tx_id = new_tx;
        self.state_start_page = new_start;
        self.state_len = blen;
        self.state_checksum = tag;
        self.total_pages = total;
        self.committed = txn.working;
        self.writer_active = false;
        proof {
            let gps = ps as int;
            assert(self.sb_spec() == sb_new);
            lemma_commit_image(
                img0,
                img1,
                img2,
                blob@,
                enc@,
                pre.sb_spec(),
                sb_new,
                pre.catalog_spec(),
                self.catalog_spec(),
            );
        }
        Ok(())
    }

    /// Releases the store, handing the filesystem back with the committed
    /// image intact.
    pub fn close(self) -> (r: MemoryFs)
        requires
            self.wf(),
        ensures
            r.wf(),
            r == self.fs_spec(),
            r.file_at(self.handle_spec()) == self.file_view(),
            image_committed(self.file_view(), self.sb_spec(), self.catalog_spec()),
    {
        self.file.unlock()
    }
}


/// Whether `page_size` is a power of two between one kibibyte and one
/// mebibyte, reporting its exponent.
pub fn page_size_log2_of(page_size: u64) -> (r: Option<u8>)
    ensures
        r matches Some(l) ==> 10 <= l <= 20 && page_size == (1u64 << l),
        r is None ==> forall|l: u8| 10 <= l <= 20 ==> page_size != (1u64 << l),
{
    let mut l: u8 = 10;
    while l <= 20
        invariant
            10 <= l <= 21,
            forall|l2: u8| 10 <= l2 < l ==> page_size != (1u64 << l2),
        decreases 21 - l,
    {
        if page_size == 1u64 << l {
            return Some(l);
        }
        l += 1;
    }
    None
}

/// Reads and decodes the slot at `off`; a slot beyond the end of the file
/// reads as invalid.
fn read_slot(file: &MemoryLockFile, off: u64) -> (r: SlotDecode)
    requires
        file.wf(),
        off == SLOT_A_OFFSET || off == SLOT_B_OFFSET,
    ensures
        file@.len() >= off + SUPERBLOCK_LEN ==> {
            let s = slot_bytes(file@, off as int);
            &&& forall|sb2: Superblock|
                s == #[trigger] spec_encode_superblock(sb2) && sb2.version == FORMAT_VERSION ==> r
                    == SlotDecode::Valid(sb2)
            &&& (r matches SlotDecode::Valid(x) ==> s == spec_encode_superblock(x) && x.version
                == FORMAT_VERSION)
            &&& (r matches SlotDecode::Newer(v) ==> slot_reads_newer(s))
            &&& (r is Invalid ==> !slot_reads_newer(s))
        },
        file@.len() < off + SUPERBLOCK_LEN ==> r is Invalid,
        r matches SlotDecode::Valid(x) ==> file@.len() >= off + SUPERBLOCK_LEN,
{
    let flen = file.len();
    if flen < SUPERBLOCK_LEN {
        return SlotDecode::Invalid;
    }
    if ((flen - SUPERBLOCK_LEN) as u64) < off {
        return SlotDecode::Invalid;
    }
    let bytes = match file.read(off, SUPERBLOCK_LEN) {
        Ok(v) => v,
        Err(_) => {
            return SlotDecode::Invalid;
        },
    };
    decode_superblock(bytes.as_slice())
}

/// Matching catalogs serialize to the same bytes.
proof fn lemma_recs_of_matching(da: Seq<TableDef>, other: Seq<TableDef>)
    requires
        da.len() == other.len(),
        forall|i: int| 0 <= i < da.len() ==> def_matches(#[trigger] da[i], other[i]),
    ensures
        recs_of(da) == recs_of(other),
    decreases da.len(),
{
    if da.len() > 0 {
        assert(def_matches(da[0], other[0]));
        assert(spec_header(da.first()) =~= spec_header(other.first()));
        assert(interleave(da.first().tree.key_seq(), da.first().tree.val_seq()) =~= interleave(
            other.first().tree.key_seq(),
            other.first().tree.val_seq(),
        ));
        assert(table_records(da.first()) =~= table_records(other.first()));
        assert forall|i: int|
            0 <= i < da.drop_first().len() implies def_matches(
            #[trigger] da.drop_first()[i],
            other.drop_first()[i],
        ) by {
            assert(da.drop_first()[i] == da[i + 1]);
            assert(other.drop_first()[i] == other[i + 1]);
        }
        lemma_recs_of_matching(da.drop_first(), other.drop_first());
    }
}

impl Database {
    /// Opens the store over an already locked file: runs recovery over the
    /// two superblock slots, verifies the state blob against its recorded
    /// checksum, and rebuilds the catalog. Any image committed by this
    /// engine reopens to exactly its committed state.
    fn open_locked(file: MemoryLockFile) -> (r: Result<Database, StorageError>)
        requires
            file.wf(),
        ensures
            r matches Ok(db) ==> db.wf() && !db.writer_spec() && db.readers_spec().len() == 0
                && db.fs_spec() == file.fs_view() && db.handle_spec() == file.path_handle(),
            forall|sb: Superblock, c: Catalog|
                #[trigger] image_committed(file@, sb, c) ==> (r matches Ok(db)
                    && db.catalog_spec().matches(&c) && c.matches(&db.catalog_spec())
                    && db.tx_spec() == sb.tx_id && db.sb_spec() == sb),
    {
        let a_dec = read_slot(&file, SLOT_A_OFFSET);
        let b_dec = read_slot(&file, SLOT_B_OFFSET);
        proof {
            assert forall|sb2: Superblock, c: Catalog|
                #[trigger] image_committed(file@, sb2, c) implies file@.len() >= 1024
                + SUPERBLOCK_LEN by {
                reveal(image_committed);
                lemma_ps_bounds(sb2.page_size_log2);
                let ps = (1u64 << sb2.page_size_log2) as int;
                lemma_mul_mono(2, sb2.state_start_page as int, ps);
            }
            assert forall|sb2: Superblock, c: Catalog|
                #[trigger] image_committed(file@, sb2, c) implies (if sb2.tx_id % 2 == 0 {
                a_dec == SlotDecode::Valid(sb2) && slot_older_spec(b_dec, sb2.tx_id)
            } else {
                b_dec == SlotDecode::Valid(sb2) && slot_older_spec(a_dec, sb2.tx_id)
            }) by {
                reveal(image_committed);
                let own = slot_bytes(file@, slot_offset(sb2.tx_id));
                assert(own == spec_encode_superblock(sb2));
                let od = if sb2.tx_id % 2 == 0 {
                    b_dec
                } else {
                    a_dec
                };
                let other = slot_bytes(file@, other_offset(sb2.tx_id));
                match od {
                    SlotDecode::Valid(x) => {
                        assert(other == spec_encode_superblock(x) && x.version == FORMAT_VERSION);
                        assert(x.tx_id < sb2.tx_id);
                    },
                    SlotDecode::Invalid => (),
                    SlotDecode::Newer(v) => {
                        assert(slot_reads_newer(other));
                        assert(false);
                    },
                }
            }
        }
        let sb = match recover_slots(a_dec, b_dec) {
            Ok(sb) => sb,
            Err(e) => {
                return Err(e);
            },
        };
        proof {
            assert forall|sb2: Superblock, c: Catalog|
                #[trigger] image_committed(file@, sb2, c) implies sb == sb2 by {}
        }
        let parity_ok = if sb.tx_id % 2 == 0 {
            sb_eq(&sb, &a_dec)
        } else {
            sb_eq(&sb, &b_dec)
        };
        let other_ok = if sb.tx_id % 2 == 0 {
            slot_older(&b_dec, sb.tx_id)
        } else {
            slot_older(&a_dec, sb.tx_id)
        };
        if !parity_ok || !other_ok {
            proof {
                assert forall|sb2: Superblock, c: Catalog|
                    #[trigger] image_committed(file@, sb2, c) implies false by {}
            }
            return Err(StorageError::Corrupted);
        }
        proof {
            // the surviving slots justify handing off to the state loader
            let od = if sb.tx_id % 2 == 0 {
                b_dec
            } else {
                a_dec
            };
            let other = slot_bytes(file@, other_offset(sb.tx_id));
            if file@.len() >= 1024 + SUPERBLOCK_LEN {
                match od {
                    SlotDecode::Valid(x) => {
                        lemma_encoded_not_newer(x);
                        assert forall|sb3: Superblock|
                            other == #[trigger] spec_encode_superblock(sb3) && sb3.version
                                == FORMAT_VERSION implies sb3.tx_id < sb.tx_id by {
                            lemma_encoding_injective(sb3, x);
                        }
                    },
                    SlotDecode::Invalid => {
                        assert forall|sb3: Superblock|
                            other == #[trigger] spec_encode_superblock(sb3) && sb3.version
                                == FORMAT_VERSION implies sb3.tx_id < sb.tx_id by {}
                    },
                    SlotDecode::Newer(v) => {
                        assert(false);
                    },
                }
            }
        }
        Database::load_state(file, sb)
    }

    /// Loads and validates the state blob a recovered superblock points at,
    /// rebuilding the committed catalog.
    #[verifier::rlimit(100)]
    fn load_state(file: MemoryLockFile, sb: Superblock) -> (r: Result<Database, StorageError>)
        requires
            file.wf(),
            sb.version == FORMAT_VERSION,
            slot_bytes(file@, slot_offset(sb.tx_id)) == spec_encode_superblock(sb),
            file@.len() >= 1024 + SUPERBLOCK_LEN ==> other_slot_harmless(
                slot_bytes(file@, other_offset(sb.tx_id)),
                sb.tx_id,
            ),
            forall|sb2: Superblock, c: Catalog|
                #[trigger] image_committed(file@, sb2, c) ==> sb2 == sb,
        ensures
            r matches Ok(db) ==> db.wf() && !db.writer_spec() && db.readers_spec().len() == 0
                && db.fs_spec() == file.fs_view() && db.handle_spec() == file.path_handle(),
            forall|sb2: Superblock, c: Catalog|
                #[trigger] image_committed(file@, sb2, c) ==> (r matches Ok(db)
                    && db.catalog_spec().matches(&c) && c.matches(&db.catalog_spec())
                    && db.tx_spec() == sb2.tx_id && db.sb_spec() == sb2),
    {
        if sb.page_size_log2 < 10 || sb.page_size_log2 > 20 || sb.state_start_page < 2 {
            proof {
                assert forall|sb2: Superblock, c: Catalog|
                    #[trigger] image_committed(file@, sb2, c) implies false by {
                    reveal(image_committed);
                }
            }
            return Err(StorageError::Corrupted);
        }
        let ps = 1u64 << sb.page_size_log2;
        proof {
            lemma_ps_bounds(sb.page_size_log2);
        }
        let flen = file.len();
        if sb.state_start_page > u64::MAX / ps {
            proof {
                assert forall|sb2: Superblock, c: Catalog|
                    #[trigger] image_committed(file@, sb2, c) implies false by {
                    reveal(image_committed);
                    let gps = ps as int;
                    assert(usize::MAX <= u64::MAX);
                    assert(sb2.state_start_page as int * gps <= u64::MAX as int);
                    assert(sb2.state_start_page as int <= u64::MAX as int / gps)
                        by (nonlinear_arith)
                        requires
                            sb2.state_start_page as int * gps <= u64::MAX as int,
                            gps >= 1,
                    ;
                }
            }
            return Err(StorageError::Corrupted);
        }
        proof {
            assert(sb.state_start_page as int * ps as int <= u64::MAX) by (nonlinear_arith)
                requires
                    sb.state_start_page <= u64::MAX / ps,
                    1 <= ps,
            ;
        }
        let off = sb.state_start_page * ps;
        if off > flen as u64 {
            proof {
                assert forall|sb2: Superblock, c: Catalog|
                    #[trigger] image_committed(file@, sb2, c) implies false by {
                    reveal(image_committed);
                }
            }
            return Err(StorageError::Corrupted);
        }
        if sb.state_len > flen as u64 - off {
            proof {
                assert forall|sb2: Superblock, c: Catalog|
                    #[trigger] image_committed(file@, sb2, c) implies false by {
                    reveal(image_committed);
                }
            }
            return Err(StorageError::Corrupted);
        }
        let blob = match file.read(off, sb.state_len as usize) {
            Ok(v) => v,
            Err(_) => {
                return Err(StorageError::Io);
            },
        };
        let tag = checksum(blob.as_slice());
        if tag != sb.state_checksum {
            proof {
                assert forall|sb2: Superblock, c: Catalog|
                    #[trigger] image_committed(file@, sb2, c) implies false by {
                    reveal(image_committed);
                }
            }
            return Err(StorageError::Corrupted);
        }
        let committed = match decode_catalog(blob.as_slice()) {
            Some(c2) => c2,
            None => {
                proof {
                    assert forall|sb2: Superblock, c: Catalog|
                        #[trigger] image_committed(file@, sb2, c) implies false by {
                        reveal(image_committed);
                    }
                }
                return Err(StorageError::Corrupted);
            },
        };
        // re-serialize: accept the blob only if it is exactly the catalog's
        // encoding, so the image invariant holds of the opened store
        let reenc = encode_catalog(&committed);
        if !crate::seqs::bytes_eq(reenc.as_slice(), blob.as_slice()) {
            proof {
                assert forall|sb2: Superblock, c: Catalog|
                    #[trigger] image_committed(file@, sb2, c) implies false by {
                    reveal(image_committed);
                    lemma_recs_of_matching(committed.defs(), c.defs());
                }
            }
            return Err(StorageError::Corrupted);
        }
        let db = Database {
            file,
            page_size: ps,
            page_size_log2: sb.page_size_log2,
            tx_id: sb.tx_id,
            state_start_page: sb.state_start_page,
            state_len: sb.state_len,
            state_checksum: sb.state_checksum,
            total_pages: sb.total_pages,
            committed,
            readers: Vec::new(),
            writer_active: false,
        };
        proof {
            reveal(image_committed);
            let img = db.file_view();
            assert(db.sb_spec() == sb);
            lemma_mul_mono(2, sb.state_start_page as int, ps as int);
            assert(image_committed(img, db.sb_spec(), db.catalog_spec()));
        }
        Ok(db)
    }

    /// Creates a store at `path`, or opens it if one is already there.
    /// A fresh store is initialized with both superblocks and an empty
    /// master, under the given page size.
    pub fn create(fs: MemoryFs, path: &[u8], page_size: u64) -> (r: Result<
        Database,
        StorageError,
    >)
        requires
            fs.wf(),
            exists|l: u8| 10 <= l <= 20 && page_size == (1u64 << l),
        ensures
            ({
                let fresh = !fs.contains_path(path@) || fs.contents_of(path@).len() == 0;
                fresh ==> (r matches Ok(db) && db.wf() && !db.writer_spec()
                    && db.readers_spec().len() == 0 && db.catalog_spec().defs().len() == 0
                    && db.tx_spec() == 1)
            }),
            r matches Ok(db) ==> db.wf() && !db.writer_spec() && db.readers_spec().len() == 0,
            // the store stays bound to `path`: its handle is the file the
            // path names, so closing and re-opening by path finds the image
            r matches Ok(db) ==> db.fs_spec().contains_path(path@) && db.handle_spec()
                == index_of_first(db.fs_spec().paths(), path@),
            forall|sb: Superblock, c: Catalog|
                fs.contains_path(path@) && #[trigger] image_committed(fs.contents_of(path@), sb, c)
                    ==> (r matches Ok(db) && db.catalog_spec().matches(&c) && c.matches(
                    &db.catalog_spec(),
                ) && db.tx_spec() == sb.tx_id),
    {
        let ghost pre_fs = fs;
        let mut fs = fs;
        let h = fs.create(path);
        let mut lock = match MemoryLockFile::new(fs, h) {
            Ok(l) => l,
            Err(_) => {
                return Err(StorageError::DatabaseAlreadyOpen);
            },
        };
        proof {
            if pre_fs.contains_path(path@) {
                assert(lock@ == pre_fs.contents_of(path@));
            } else {
                assert(lock@.len() == 0);
            }
        }
        if lock.len() > 0 {
            let r = Database::open_locked(lock);
            return r;
        }
        proof {
            assert(lock@.len() == 0);
            assert forall|sb: Superblock, c: Catalog|
                pre_fs.contains_path(path@) && #[trigger] image_committed(
                    pre_fs.contents_of(path@),
                    sb,
                    c,
                ) implies false by {
                reveal(image_committed);
                lemma_ps_bounds(sb.page_size_log2);
                lemma_mul_mono(2, sb.state_start_page as int, (1u64 << sb.page_size_log2) as int);
            }
        }
        let log2 = match page_size_log2_of(page_size) {
            Some(l) => l,
            None => {
                return Err(StorageError::Io);
            },
        };
        proof {
            lemma_ps_bounds(log2);
        }
        let empty = Catalog::new();
        let blob = encode_catalog(&empty);
        let tag = checksum(blob.as_slice());
        let off: u64 = 2 * page_size;
        proof {
            assert(recs_of(empty.defs()) =~= Seq::<Seq<u8>>::empty());
            assert(crate::bytes::enc_items(Seq::<Seq<u8>>::empty()) =~= Seq::<u8>::empty());
            assert(blob@.len() == 8);
        }
        if blob.len() > 1024 * 1024 {
            return Err(StorageError::Io);
        }
        match lock.write(off, blob.as_slice()) {
            Ok(()) => (),
            Err(_) => {
                return Err(StorageError::Io);
            },
        }
        let _ = lock.sync_data();
        let blen = blob.len() as u64;
        let pages = blen / page_size + if blen % page_size == 0 {
            0
        } else {
            1
        };
        let sb1 = Superblock {
            version: FORMAT_VERSION,
            page_size_log2: log2,
            total_pages: 2 + pages,
            tx_id: 1,
            state_start_page: 2,
            state_len: blen,
            state_checksum: tag,
        };
        let enc1 = encode_superblock(&sb1);
        match lock.write(SLOT_B_OFFSET, enc1.as_slice()) {
            Ok(()) => (),
            Err(_) => {
                return Err(StorageError::Io);
            },
        }
        let sb0 = Superblock { tx_id: 0, ..sb1 };
        let enc0 = encode_superblock(&sb0);
        match lock.write(SLOT_A_OFFSET, enc0.as_slice()) {
            Ok(()) => (),
            Err(_) => {
                return Err(StorageError::Io);
            },
        }
        let _ = lock.fsync();
        proof {
            reveal(image_committed);
            let img = lock@;
            assert(2 * page_size >= 2048);
            assert(slot_bytes(img, SLOT_B_OFFSET as int) =~= spec_encode_superblock(sb1));
            assert(slot_bytes(img, SLOT_A_OFFSET as int) =~= spec_encode_superblock(sb0));
            assert(img.subrange(off as int, off + blen) =~= spec_encode_catalog(empty));
            lemma_encoded_not_newer(sb0);
            assert forall|sb3: Superblock|
                slot_bytes(img, SLOT_A_OFFSET as int) == #[trigger] spec_encode_superblock(sb3)
                    && sb3.version == FORMAT_VERSION implies sb3.tx_id < 1 by {
                lemma_encoding_injective(sb3, sb0);
            }
            assert(image_committed(img, sb1, empty));
        }
        let r = Database::open_locked(lock);
        proof {
            assert(r matches Ok(db) && db.catalog_spec().matches(&empty));
        }
        r
    }

    /// Opens an existing store: acquires the lock, then runs recovery.
    pub fn open(fs: MemoryFs, path: &[u8]) -> (r: Result<Database, StorageError>)
        requires
            fs.wf(),
        ensures
            !fs.contains_path(path@) ==> r == Err::<Database, StorageError>(StorageError::Io),
            r matches Ok(db) ==> db.wf() && !db.writer_spec() && db.readers_spec().len() == 0,
            // the store stays bound to `path`: its handle is the file the
            // path names, and the filesystem is the one handed in
            r matches Ok(db) ==> db.fs_spec() == fs && db.fs_spec().contains_path(path@)
                && db.handle_spec() == index_of_first(db.fs_spec().paths(), path@),
            forall|sb: Superblock, c: Catalog|
                fs.contains_path(path@) && #[trigger] image_committed(fs.contents_of(path@), sb, c)
                    ==> (r matches Ok(db) && db.catalog_spec().matches(&c) && c.matches(
                    &db.catalog_spec(),
                ) && db.tx_spec() == sb.tx_id && db.sb_spec() == sb),
    {
        let h = match fs.open(path) {
            Ok(h) => h,
            Err(e) => {
                return Err(e);
            },
        };
        let lock = match MemoryLockFile::new(fs, h) {
            Ok(l) => l,
            Err(_) => {
                return Err(StorageError::DatabaseAlreadyOpen);
            },
        };
        Database::open_locked(lock)
    }
}

/// Field equality between a recovered superblock and a decoded slot.
fn sb_eq(sb: &Superblock, d: &SlotDecode) -> (r: bool)
    ensures
        r == (d matches SlotDecode::Valid(x) && x == *sb),
{
    match d {
        SlotDecode::Valid(x) => {
            x.version == sb.version && x.page_size_log2 == sb.page_size_log2 && x.total_pages
                == sb.total_pages && x.tx_id == sb.tx_id && x.state_start_page
                == sb.state_start_page && x.state_len == sb.state_len && x.state_checksum
                == sb.state_checksum
        },
        _ => false,
    }
}

/// Whether a decoded slot cannot outrank transaction `tx` in recovery.
fn slot_older(d: &SlotDecode, tx: u64) -> (r: bool)
    ensures
        r == (match d {
            SlotDecode::Valid(x) => x.tx_id < tx,
            SlotDecode::Invalid => true,
            SlotDecode::Newer(_) => false,
        }),
{
    match d {
        SlotDecode::Valid(x) => x.tx_id < tx,
        SlotDecode::Invalid => true,
        SlotDecode::Newer(_) => false,
    }
}

/// Recovery preference, at the specification level.
pub open spec fn slot_older_spec(d: SlotDecode, tx: u64) -> bool {
    match d {
        SlotDecode::Valid(x) => x.tx_id < tx,
        SlotDecode::Invalid => true,
        SlotDecode::Newer(_) => false,
    }
}

} // verus!