use redb::db::Database;
use redb::file::{MemoryFs, MemoryLockFile};
use redb::StorageError;
use std::cmp::Ordering;

const KFP: u64 = 11;
const VFP: u64 = 22;

fn be_bytes(i: u64) -> Vec<u8> {
    let mut v = Vec::new();
    let mut k = 0;
    while k < 8 {
        v.push(((i >> (56 - 8 * k)) & 0xff) as u8);
        k += 1;
    }
    v
}

#[test]
fn s1_create_insert_range() {
    let fs = MemoryFs::new();
    let mut db = Database::create(fs, b"db", 4096).unwrap();
    let mut w = db.begin_write().unwrap();
    let mut t = w.open_table(b"t", false, KFP, VFP).unwrap();
    assert!(t.insert(b"a", b"1").unwrap().is_none());
    assert!(t.insert(b"b", b"2").unwrap().is_none());
    assert!(t.insert(b"c", b"3").unwrap().is_none());
    w.close_table(t);
    db.commit(w, true).unwrap();

    // re-open from the same filesystem
    let fs = db.close();
    let mut db = Database::open(fs, b"db").unwrap();
    let r = db.begin_read();
    let t = r.open_table(b"t", false, KFP, VFP).unwrap();
    assert_eq!(t.len().unwrap(), 3);
    let mut it = t.range(Some(b"a"), Some(b"c")).unwrap();
    let (k1, v1) = it.next().unwrap();
    assert_eq!(k1.value(), b"a");
    assert_eq!(v1.value(), b"1");
    let (k2, v2) = it.next().unwrap();
    assert_eq!(k2.value(), b"b");
    assert_eq!(v2.value(), b"2");
    assert!(it.next().is_none());
    db.end_read(r);
}

#[test]
fn s2_many_keys_pop_first_last() {
    let fs = MemoryFs::new();
    let mut db = Database::create(fs, b"db", 4096).unwrap();
    let mut w = db.begin_write().unwrap();
    let mut t = w.open_table(b"t", false, KFP, VFP).unwrap();
    let mut i: u64 = 0;
    while i < 10000 {
        let k = be_bytes(i);
        t.insert(k.as_slice(), k.as_slice()).unwrap();
        i += 1;
    }
    w.close_table(t);
    db.commit(w, true).unwrap();

    let mut w = db.begin_write().unwrap();
    let mut t = w.open_table(b"t", false, KFP, VFP).unwrap();
    let (fk, fv) = t.pop_first().unwrap().unwrap();
    assert_eq!(fk.value(), be_bytes(0).as_slice());
    assert_eq!(fv.value(), be_bytes(0).as_slice());
    let (lk, lv) = t.pop_last().unwrap().unwrap();
    assert_eq!(lk.value(), be_bytes(9999).as_slice());
    assert_eq!(lv.value(), be_bytes(9999).as_slice());
    assert_eq!(t.len().unwrap(), 9998);
    w.close_table(t);
    db.abort(w);
}

#[test]
fn s3_snapshot_isolation() {
    let fs = MemoryFs::new();
    let mut db = Database::create(fs, b"db", 4096).unwrap();
    let r1 = db.begin_read();
    let mut w = db.begin_write().unwrap();
    let mut t = w.open_table(b"t", false, KFP, VFP).unwrap();
    t.insert(b"x", b"1").unwrap();
    w.close_table(t);
    db.commit(w, true).unwrap();
    // the reader begun before the commit never observes it
    let t1 = r1.open_table(b"t", false, KFP, VFP).unwrap();
    assert!(t1.get(b"x").unwrap().is_none());
    // a fresh reader observes it
    let r2 = db.begin_read();
    let t2 = r2.open_table(b"t", false, KFP, VFP).unwrap();
    assert_eq!(t2.get(b"x").unwrap().unwrap().value(), b"1");
    db.end_read(r1);
    db.end_read(r2);
}

#[test]
fn s4_value_too_large() {
    let fs = MemoryFs::new();
    let mut db = Database::create(fs, b"db", 4096).unwrap();
    let mut w = db.begin_write().unwrap();
    let mut t = w.open_table(b"t", false, KFP, VFP).unwrap();
    let big = vec![7u8; redb::table::MAX_VALUE_LENGTH + 1];
    match t.insert(b"k", big.as_slice()) {
        Err(StorageError::ValueTooLarge(n)) => {
            assert_eq!(n, redb::table::MAX_VALUE_LENGTH + 1)
        },
        _ => panic!("expected ValueTooLarge"),
    }
    // the failed insert left the table unchanged
    assert!(t.get(b"k").unwrap().is_none());
    w.close_table(t);
    db.abort(w);
}

#[test]
fn s5_recovery_uses_surviving_slot() {
    let fs = MemoryFs::new();
    let mut db = Database::create(fs, b"db", 4096).unwrap();
    let mut w = db.begin_write().unwrap();
    let mut t = w.open_table(b"t", false, KFP, VFP).unwrap();
    t.insert(b"a", b"1").unwrap();
    t.insert(b"b", b"2").unwrap();
    w.close_table(t);
    db.commit(w, true).unwrap();
    // tx 2 lives in slot A; tear the inactive slot B, as a torn superblock
    // write would
    let mut fs = db.close();
    let h = fs.open(b"db").unwrap();
    let mut lock = MemoryLockFile::new(fs, h).unwrap();
    lock.write(1024, &[0xde, 0xad, 0xbe, 0xef, 0x00, 0x11, 0x22, 0x33]).unwrap();
    let fs = lock.unlock();
    let mut db = Database::open(fs, b"db").unwrap();
    let r = db.begin_read();
    let t = r.open_table(b"t", false, KFP, VFP).unwrap();
    assert_eq!(t.len().unwrap(), 2);
    assert_eq!(t.get(b"a").unwrap().unwrap().value(), b"1");
    db.end_read(r);
}

#[test]
fn s6_crash_before_commit_point_keeps_old_state() {
    let fs = MemoryFs::new();
    let mut db = Database::create(fs, b"db", 4096).unwrap();
    let mut w = db.begin_write().unwrap();
    let mut t = w.open_table(b"t", false, KFP, VFP).unwrap();
    t.insert(b"a", b"1").unwrap();
    w.close_table(t);
    db.commit(w, true).unwrap();
    // simulate a crash after the data write and flush of the next commit,
    // before the inactive slot's write: new pages reached the file, the
    // superblock did not
    let mut fs = db.close();
    let h = fs.open(b"db").unwrap();
    let mut lock = MemoryLockFile::new(fs, h).unwrap();
    let junk = vec![0xabu8; 4096];
    let end = lock.len() as u64;
    lock.write(end, junk.as_slice()).unwrap();
    let fs = lock.unlock();
    let mut db = Database::open(fs, b"db").unwrap();
    let r = db.begin_read();
    let t = r.open_table(b"t", false, KFP, VFP).unwrap();
    assert_eq!(t.len().unwrap(), 1);
    assert_eq!(t.get(b"a").unwrap().unwrap().value(), b"1");
    db.end_read(r);
}

#[test]
fn type_fingerprint_mismatch() {
    let fs = MemoryFs::new();
    let mut db = Database::create(fs, b"db", 4096).unwrap();
    let mut w = db.begin_write().unwrap();
    let t = w.open_table(b"t", false, KFP, VFP).unwrap();
    w.close_table(t);
    db.commit(w, true).unwrap();
    let mut w = db.begin_write().unwrap();
    match w.open_table(b"t", false, 77, 88) {
        Err(StorageError::TableTypeMismatch { expected_key, expected_value, actual_key, actual_value }) => {
            assert_eq!(expected_key, KFP);
            assert_eq!(expected_value, VFP);
            assert_eq!(actual_key, 77);
            assert_eq!(actual_value, 88);
        },
        _ => panic!("expected TableTypeMismatch"),
    }
    db.abort(w);
}

#[test]
fn idempotent_remove() {
    let fs = MemoryFs::new();
    let mut db = Database::create(fs, b"db", 4096).unwrap();
    let mut w = db.begin_write().unwrap();
    let mut t = w.open_table(b"t", false, KFP, VFP).unwrap();
    t.insert(b"k", b"v").unwrap();
    let first = t.remove(b"k").unwrap();
    assert_eq!(first.unwrap().value(), b"v");
    let second = t.remove(b"k").unwrap();
    assert!(second.is_none());
    assert!(t.get(b"k").unwrap().is_none());
    w.close_table(t);
    db.abort(w);
}

#[test]
fn ordered_iteration_both_ends() {
    let fs = MemoryFs::new();
    let mut db = Database::create(fs, b"db", 4096).unwrap();
    let mut w = db.begin_write().unwrap();
    let mut t = w.open_table(b"t", false, KFP, VFP).unwrap();
    t.insert(b"m", b"3").unwrap();
    t.insert(b"a", b"1").unwrap();
    t.insert(b"z", b"4").unwrap();
    t.insert(b"f", b"2").unwrap();
    let mut it = t.iter().unwrap();
    assert_eq!(it.next().unwrap().0.value(), b"a");
    assert_eq!(it.next_back().unwrap().0.value(), b"z");
    assert_eq!(it.next().unwrap().0.value(), b"f");
    assert_eq!(it.next_back().unwrap().0.value(), b"m");
    assert!(it.next().is_none());
    assert!(it.next_back().is_none());
    w.close_table(t);
    db.abort(w);
}

#[test]
fn insert_returns_previous_value() {
    let fs = MemoryFs::new();
    let mut db = Database::create(fs, b"db", 4096).unwrap();
    let mut w = db.begin_write().unwrap();
    let mut t = w.open_table(b"t", false, KFP, VFP).unwrap();
    assert!(t.insert(b"k", b"old").unwrap().is_none());
    let prev = t.insert(b"k", b"new").unwrap().unwrap();
    assert_eq!(prev.value(), b"old");
    assert_eq!(t.get(b"k").unwrap().unwrap().value(), b"new");
    assert_eq!(t.len().unwrap(), 1);
    w.close_table(t);
    db.abort(w);
}

#[test]
fn insert_reserve_fill_in_place() {
    let fs = MemoryFs::new();
    let mut db = Database::create(fs, b"db", 4096).unwrap();
    let mut w = db.begin_write().unwrap();
    let mut t = w.open_table(b"t", false, KFP, VFP).unwrap();
    // a reservation starts zeroed
    let mut g = t.insert_reserve(b"k", 5).unwrap();
    assert_eq!(g.len(), 5);
    assert_eq!(t.get(b"k").unwrap().unwrap().value(), &[0u8, 0, 0, 0, 0]);
    // fill the reserved bytes in place and store them back
    g.set(0, b'h');
    g.fill(b"hello");
    t.store_reserved(g).unwrap();
    assert_eq!(t.get(b"k").unwrap().unwrap().value(), b"hello");
    match t.insert_reserve(b"q", (redb::table::MAX_VALUE_LENGTH + 1) as u32) {
        Err(StorageError::ValueTooLarge(_)) => (),
        _ => panic!("expected ValueTooLarge"),
    }
    w.close_table(t);
    db.abort(w);
}

#[test]
fn drain_removes_range() {
    let fs = MemoryFs::new();
    let mut db = Database::create(fs, b"db", 4096).unwrap();
    let mut w = db.begin_write().unwrap();
    let mut t = w.open_table(b"t", false, KFP, VFP).unwrap();
    t.insert(b"a", b"1").unwrap();
    t.insert(b"b", b"2").unwrap();
    t.insert(b"c", b"3").unwrap();
    t.insert(b"d", b"4").unwrap();
    let mut d = t.drain(Some(b"b"), Some(b"d")).unwrap();
    assert_eq!(d.next().unwrap().0.value(), b"b");
    assert_eq!(d.next().unwrap().0.value(), b"c");
    assert!(d.next().is_none());
    assert_eq!(t.len().unwrap(), 2);
    assert!(t.get(b"b").unwrap().is_none());
    assert!(t.get(b"a").unwrap().is_some());
    assert!(t.get(b"d").unwrap().is_some());
    w.close_table(t);
    db.abort(w);
}

#[test]
fn drain_filter_removes_matching() {
    let fs = MemoryFs::new();
    let mut db = Database::create(fs, b"db", 4096).unwrap();
    let mut w = db.begin_write().unwrap();
    let mut t = w.open_table(b"t", false, KFP, VFP).unwrap();
    t.insert(b"a", b"keep").unwrap();
    t.insert(b"b", b"drop").unwrap();
    t.insert(b"c", b"keep").unwrap();
    t.insert(b"d", b"drop").unwrap();
    let mut d = t.drain_filter(None, None, |_k: &[u8], v: &[u8]| v == &b"drop"[..]).unwrap();
    assert_eq!(d.next().unwrap().0.value(), b"b");
    assert_eq!(d.next().unwrap().0.value(), b"d");
    assert!(d.next().is_none());
    assert_eq!(t.len().unwrap(), 2);
    assert!(t.get(b"a").unwrap().is_some());
    assert!(t.get(b"b").unwrap().is_none());
    w.close_table(t);
    db.abort(w);
}

#[test]
fn single_writer_exclusion() {
    let fs = MemoryFs::new();
    let mut db = Database::create(fs, b"db", 4096).unwrap();
    let w1 = db.begin_write().unwrap();
    // the second writer is refused until the first finishes
    assert!(db.begin_write().is_none());
    db.abort(w1);
    let w2 = db.begin_write().unwrap();
    db.commit(w2, true).unwrap();
    assert!(db.begin_write().is_some());
}

#[test]
fn open_missing_database_fails() {
    let fs = MemoryFs::new();
    match Database::open(fs, b"absent") {
        Err(StorageError::Io) => (),
        _ => panic!("expected Io"),
    }
}

#[test]
fn corrupted_both_slots_fails() {
    let fs = MemoryFs::new();
    let db = Database::create(fs, b"db", 4096).unwrap();
    let mut fs = db.close();
    let h = fs.open(b"db").unwrap();
    let mut lock = MemoryLockFile::new(fs, h).unwrap();
    let junk = vec![0x55u8; 1024 + 78];
    lock.write(0, junk.as_slice()).unwrap();
    let fs = lock.unlock();
    match Database::open(fs, b"db") {
        Err(StorageError::Corrupted) => (),
        _ => panic!("expected Corrupted"),
    }
}

#[test]
fn newer_format_version_requires_upgrade() {
    let fs = MemoryFs::new();
    let db = Database::create(fs, b"db", 4096).unwrap();
    let mut fs = db.close();
    let h = fs.open(b"db").unwrap();
    let mut lock = MemoryLockFile::new(fs, h).unwrap();
    let newer = redb::superblock::Superblock {
        version: 9,
        page_size_log2: 12,
        total_pages: 3,
        tx_id: 4,
        state_start_page: 2,
        state_len: 8,
        state_checksum: 0,
    };
    let enc = redb::superblock::encode_superblock(&newer);
    lock.write(0, enc.as_slice()).unwrap();
    let fs = lock.unlock();
    match Database::open(fs, b"db") {
        Err(StorageError::UpgradeRequired(v)) => assert_eq!(v, 9),
        _ => panic!("expected UpgradeRequired"),
    }
}

#[test]
fn superblock_codec_round_trip() {
    let sb = redb::superblock::Superblock {
        version: 1,
        page_size_log2: 12,
        total_pages: 7,
        tx_id: 42,
        state_start_page: 2,
        state_len: 123,
        state_checksum: 0xfeedface,
    };
    let enc = redb::superblock::encode_superblock(&sb);
    assert_eq!(enc.len(), redb::superblock::SUPERBLOCK_LEN);
    match redb::superblock::decode_superblock(enc.as_slice()) {
        redb::superblock::SlotDecode::Valid(d) => {
            assert_eq!(d.tx_id, 42);
            assert_eq!(d.state_len, 123);
            assert_eq!(d.state_checksum, 0xfeedface);
        },
        _ => panic!("expected valid decode"),
    }
    // flipping one byte invalidates the record
    let mut bad = enc.clone();
    bad[20] = bad[20].wrapping_add(1);
    match redb::superblock::decode_superblock(bad.as_slice()) {
        redb::superblock::SlotDecode::Invalid => (),
        _ => panic!("expected invalid decode"),
    }
}

#[test]
fn byte_list_codec_round_trip() {
    let items: Vec<Vec<u8>> = vec![b"".to_vec(), b"one".to_vec(), b"two two".to_vec()];
    let enc = redb::bytes::encode_byte_list(&items);
    let dec = redb::bytes::decode_byte_list(enc.as_slice()).unwrap();
    assert_eq!(dec.len(), 3);
    assert_eq!(dec[0], b"".to_vec());
    assert_eq!(dec[1], b"one".to_vec());
    assert_eq!(dec[2], b"two two".to_vec());
    assert!(redb::bytes::decode_byte_list(&enc[0..4]).is_none());
}

#[test]
fn checksum_is_stable_and_sensitive() {
    let a = redb::checksum::checksum(b"hello world");
    let b = redb::checksum::checksum(b"hello world");
    let c = redb::checksum::checksum(b"hello worlc");
    assert_eq!(a, b);
    assert_ne!(a, c);
    assert_eq!(redb::checksum::checksum(b""), redb::checksum::CHECKSUM_OFFSET);
}

#[test]
fn byte_order_comparisons() {
    assert_eq!(redb::seqs::bytes_cmp(b"a", b"b"), Ordering::Less);
    assert_eq!(redb::seqs::bytes_cmp(b"b", b"a"), Ordering::Greater);
    assert_eq!(redb::seqs::bytes_cmp(b"a", b"a"), Ordering::Equal);
    assert_eq!(redb::seqs::bytes_cmp(b"a", b"ab"), Ordering::Less);
    assert_eq!(redb::seqs::bytes_cmp(b"ab", b"a"), Ordering::Greater);
    assert!(redb::seqs::bytes_eq(b"xyz", b"xyz"));
    assert!(!redb::seqs::bytes_eq(b"xyz", b"xya"));
}

#[test]
fn memory_fs_create_open_share_contents() {
    let mut fs = MemoryFs::new();
    assert!(!fs.path_exists(b"f"));
    let h = fs.create(b"f");
    assert!(fs.path_exists(b"f"));
    let mut lock = MemoryLockFile::new(fs, h).unwrap();
    lock.write(3, b"abc").unwrap();
    assert_eq!(lock.len(), 6);
    let got = lock.read(0, 6).unwrap();
    assert_eq!(got, vec![0, 0, 0, b'a', b'b', b'c']);
    let fs = lock.unlock();
    // re-opening observes the same bytes
    let h2 = fs.open(b"f").unwrap();
    let lock2 = MemoryLockFile::new(fs, h2).unwrap();
    assert_eq!(lock2.read(3, 3).unwrap(), b"abc".to_vec());
}

#[test]
fn tables_are_independent_and_namespaced() {
    let fs = MemoryFs::new();
    let mut db = Database::create(fs, b"db", 4096).unwrap();
    let mut w = db.begin_write().unwrap();
    let mut t1 = w.open_table(b"one", false, KFP, VFP).unwrap();
    t1.insert(b"k", b"v1").unwrap();
    w.close_table(t1);
    let mut t2 = w.open_table(b"two", false, KFP, VFP).unwrap();
    t2.insert(b"k", b"v2").unwrap();
    w.close_table(t2);
    let mut ts = w.open_table(b"one", true, KFP, VFP).unwrap();
    ts.insert(b"k", b"vs").unwrap();
    w.close_table(ts);
    db.commit(w, true).unwrap();
    let r = db.begin_read();
    assert_eq!(
        r.open_table(b"one", false, KFP, VFP).unwrap().get(b"k").unwrap().unwrap().value(),
        b"v1"
    );
    assert_eq!(
        r.open_table(b"two", false, KFP, VFP).unwrap().get(b"k").unwrap().unwrap().value(),
        b"v2"
    );
    assert_eq!(
        r.open_table(b"one", true, KFP, VFP).unwrap().get(b"k").unwrap().unwrap().value(),
        b"vs"
    );
    db.end_read(r);
}

#[test]
fn non_durable_commit_still_applies() {
    let fs = MemoryFs::new();
    let mut db = Database::create(fs, b"db", 1024).unwrap();
    let mut w = db.begin_write().unwrap();
    let mut t = w.open_table(b"t", false, KFP, VFP).unwrap();
    t.insert(b"k", b"v").unwrap();
    w.close_table(t);
    db.commit(w, false).unwrap();
    let r = db.begin_read();
    let t = r.open_table(b"t", false, KFP, VFP).unwrap();
    assert_eq!(t.get(b"k").unwrap().unwrap().value(), b"v");
    db.end_read(r);
}

#[test]
fn abort_discards_changes() {
    let fs = MemoryFs::new();
    let mut db = Database::create(fs, b"db", 4096).unwrap();
    let mut w = db.begin_write().unwrap();
    let mut t = w.open_table(b"t", false, KFP, VFP).unwrap();
    t.insert(b"k", b"v").unwrap();
    w.close_table(t);
    db.abort(w);
    let r = db.begin_read();
    let t = r.open_table(b"t", false, KFP, VFP).unwrap();
    assert!(t.get(b"k").unwrap().is_none());
    db.end_read(r);
}

#[test]
fn truncated_file_is_detected() {
    let fs = MemoryFs::new();
    let mut db = Database::create(fs, b"db", 4096).unwrap();
    let mut w = db.begin_write().unwrap();
    let mut t = w.open_table(b"t", false, KFP, VFP).unwrap();
    t.insert(b"a", b"1").unwrap();
    w.close_table(t);
    db.commit(w, true).unwrap();
    // cut the file inside the second superblock slot, losing the state pages
    let fs = db.close();
    let h = fs.open(b"db").unwrap();
    let mut lock = MemoryLockFile::new(fs, h).unwrap();
    lock.set_len(1050).unwrap();
    let fs = lock.unlock();
    match Database::open(fs, b"db") {
        Err(StorageError::Corrupted) => (),
        _ => panic!("expected Corrupted"),
    }
}

#[test]
fn create_on_existing_store_opens_it() {
    let fs = MemoryFs::new();
    let mut db = Database::create(fs, b"db", 4096).unwrap();
    let mut w = db.begin_write().unwrap();
    let mut t = w.open_table(b"t", false, KFP, VFP).unwrap();
    t.insert(b"k", b"v").unwrap();
    w.close_table(t);
    db.commit(w, true).unwrap();
    let fs = db.close();
    // create over an existing store behaves as open: nothing is truncated
    let mut db = Database::create(fs, b"db", 4096).unwrap();
    let r = db.begin_read();
    let t = r.open_table(b"t", false, KFP, VFP).unwrap();
    assert_eq!(t.get(b"k").unwrap().unwrap().value(), b"v");
    db.end_read(r);
}
