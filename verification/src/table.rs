use vstd::prelude::*;

use crate::errors::StorageError;
use crate::seqs::{lex_lt, sorted_lex, to_vec_bytes};
use crate::tree::{
    hi_cut, in_range, lemma_rank_props, lo_cut, pred_decides, rank, seq_views, view_opt, Tree,
};

verus! {

/// Per-entry cap on encoded key and value sizes, chosen so a key/value pair
/// fits in a leaf with overhead.
pub const MAX_VALUE_LENGTH: usize = 3 * 1024 * 1024;

/// An owned view of one key or value read out of the store.
///
/// The store hands entries out through guards rather than bare slices so the
/// backing page can be released independently of the caller's copy.
pub struct AccessGuard {
    data: Vec<u8>,
}

impl View for AccessGuard {
    type V = Seq<u8>;

    closed spec fn view(&self) -> Seq<u8> {
        self.data@
    }
}

impl AccessGuard {
    /// Wraps an owned buffer.
    pub fn new(data: Vec<u8>) -> (r: AccessGuard)
        ensures
            r@ == data@,
    {
        AccessGuard { data }
    }

    /// The guarded bytes.
    pub fn value(&self) -> (r: &[u8])
        ensures
            r@ == self@,
    {
        self.data.as_slice()
    }

    /// Length of the guarded bytes.
    pub fn len(&self) -> (r: usize)
        ensures
            r == self@.len(),
    {
        self.data.len()
    }

    /// The guarded bytes as an owned vector.
    pub fn to_vec(&self) -> (r: Vec<u8>)
        ensures
            r@ == self@,
    {
        to_vec_bytes(self.data.as_slice())
    }
}

/// A reservation handed out by `Table::insert_reserve`: an owned, writable
/// buffer of the reserved length for one entry's value. The caller fills it
/// in place, then `Table::store_reserved` writes it back under the reserved
/// key; checksums are recomputed only when the transaction commits.
pub struct AccessGuardMut {
    key: Vec<u8>,
    data: Vec<u8>,
}

impl AccessGuardMut {
    pub closed spec fn key_spec(&self) -> Seq<u8> {
        self.key@
    }

    pub closed spec fn data_spec(&self) -> Seq<u8> {
        self.data@
    }

    pub open spec fn wf(&self) -> bool {
        self.key_spec().len() <= MAX_VALUE_LENGTH && self.data_spec().len() <= MAX_VALUE_LENGTH
    }

    /// Length of the reserved value.
    pub fn len(&self) -> (r: usize)
        ensures
            r == self.data_spec().len(),
    {
        self.data.len()
    }

    /// The reserved key.
    pub fn key(&self) -> (r: &[u8])
        ensures
            r@ == self.key_spec(),
    {
        self.key.as_slice()
    }

    /// Writes one byte of the reserved value in place.
    pub fn set(&mut self, i: usize, b: u8)
        requires
            i < old(self).data_spec().len(),
        ensures
            final(self).key_spec() == old(self).key_spec(),
            final(self).data_spec() == old(self).data_spec().update(i as int, b),
            old(self).wf() ==> final(self).wf(),
    {
        self.data[i] = b;
    }

    /// Overwrites the whole reserved value in place.
    pub fn fill(&mut self, src: &[u8])
        requires
            src@.len() == old(self).data_spec().len(),
        ensures
            final(self).key_spec() == old(self).key_spec(),
            final(self).data_spec() == src@,
            old(self).wf() ==> final(self).wf(),
    {
        self.data = to_vec_bytes(src);
    }
}

/// A double-ended cursor over a run of entries copied out of a table, in
/// ascending key order. `next` takes from the front, `next_back` from the
/// back.
pub struct Range {
    keys: Vec<Vec<u8>>,
    values: Vec<Vec<u8>>,
    front: usize,
    back: usize,
}

impl Range {
    pub closed spec fn all_keys(&self) -> Seq<Seq<u8>> {
        seq_views(self.keys@)
    }

    pub closed spec fn all_vals(&self) -> Seq<Seq<u8>> {
        seq_views(self.values@)
    }

    pub closed spec fn front_spec(&self) -> int {
        self.front as int
    }

    pub closed spec fn back_spec(&self) -> int {
        self.back as int
    }

    pub open spec fn wf(&self) -> bool {
        &&& self.all_keys().len() == self.all_vals().len()
        &&& 0 <= self.front_spec() <= self.back_spec() <= self.all_keys().len()
        &&& sorted_lex(self.all_keys())
    }

    /// Keys not yet yielded, in ascending order.
    pub open spec fn remaining_keys(&self) -> Seq<Seq<u8>> {
        self.all_keys().subrange(self.front_spec(), self.back_spec())
    }

    /// Values not yet yielded, aligned with `remaining_keys`.
    pub open spec fn remaining_vals(&self) -> Seq<Seq<u8>> {
        self.all_vals().subrange(self.front_spec(), self.back_spec())
    }

    /// Builds a cursor over copied-out entries.
    pub fn new(keys: Vec<Vec<u8>>, values: Vec<Vec<u8>>) -> (r: Range)
        requires
            keys@.len() == values@.len(),
            sorted_lex(seq_views(keys@)),
        ensures
            r.wf(),
            r.remaining_keys() == seq_views(keys@),
            r.remaining_vals() == seq_views(values@),
    {
        let back = keys.len();
        let r = Range { keys, values, front: 0, back };
        proof {
            assert(r.remaining_keys() =~= r.all_keys());
            assert(r.remaining_vals() =~= r.all_vals());
        }
        r
    }

    /// How many entries remain.
    pub fn remaining_len(&self) -> (r: usize)
        requires
            self.wf(),
        ensures
            r == self.remaining_keys().len(),
    {
        self.back - self.front
    }

    /// Yields the first remaining entry, ascending.
    pub fn next(&mut self) -> (r: Option<(AccessGuard, AccessGuard)>)
        requires
            old(self).wf(),
        ensures
            final(self).wf(),
            old(self).remaining_keys().len() == 0 ==> r is None && *final(self) == *old(self),
            old(self).remaining_keys().len() > 0 ==> {
                &&& r matches Some(p) && p.0@ == old(self).remaining_keys()[0] && p.1@ == old(
                    self,
                ).remaining_vals()[0]
                &&& final(self).remaining_keys() == old(self).remaining_keys().drop_first()
                &&& final(self).remaining_vals() == old(self).remaining_vals().drop_first()
            },
    {
        if self.front >= self.back {
            return None;
        }
        let k = to_vec_bytes(self.keys[self.front].as_slice());
        let v = to_vec_bytes(self.values[self.front].as_slice());
        let ghost pre = *self;
        self.front += 1;
        proof {
            assert(self.remaining_keys() =~= pre.remaining_keys().drop_first());
            assert(self.remaining_vals() =~= pre.remaining_vals().drop_first());
        }
        Some((AccessGuard::new(k), AccessGuard::new(v)))
    }

    /// Yields the last remaining entry, descending.
    pub fn next_back(&mut self) -> (r: Option<(AccessGuard, AccessGuard)>)
        requires
            old(self).wf(),
        ensures
            final(self).wf(),
            old(self).remaining_keys().len() == 0 ==> r is None && *final(self) == *old(self),
            old(self).remaining_keys().len() > 0 ==> {
                &&& r matches Some(p) && p.0@ == old(self).remaining_keys().last() && p.1@ == old(
                    self,
                ).remaining_vals().last()
                &&& final(self).remaining_keys() == old(self).remaining_keys().drop_last()
                &&& final(self).remaining_vals() == old(self).remaining_vals().drop_last()
            },
    {
        if self.front >= self.back {
            return None;
        }
        let k = to_vec_bytes(self.keys[self.back - 1].as_slice());
        let v = to_vec_bytes(self.values[self.back - 1].as_slice());
        let ghost pre = *self;
        self.back -= 1;
        proof {
            assert(self.remaining_keys() =~= pre.remaining_keys().drop_last());
            assert(self.remaining_vals() =~= pre.remaining_vals().drop_last());
        }
        Some((AccessGuard::new(k), AccessGuard::new(v)))
    }
}

/// The removed entries of a `Table::drain` call, as a double-ended cursor in
/// ascending key order.
pub struct Drain {
    inner: Range,
}

impl Drain {
    pub closed spec fn inner_spec(&self) -> Range {
        self.inner
    }

    pub open spec fn wf(&self) -> bool {
        self.inner_spec().wf()
    }

    pub open spec fn remaining_keys(&self) -> Seq<Seq<u8>> {
        self.inner_spec().remaining_keys()
    }

    pub open spec fn remaining_vals(&self) -> Seq<Seq<u8>> {
        self.inner_spec().remaining_vals()
    }

    pub fn new(inner: Range) -> (r: Drain)
        ensures
            r.inner_spec() == inner,
    {
        Drain { inner }
    }

    /// Yields the first remaining removed entry.
    pub fn next(&mut self) -> (r: Option<(AccessGuard, AccessGuard)>)
        requires
            old(self).wf(),
        ensures
            final(self).wf(),
            old(self).remaining_keys().len() == 0 ==> r is None && *final(self) == *old(self),
            old(self).remaining_keys().len() > 0 ==> {
                &&& r matches Some(p) && p.0@ == old(self).remaining_keys()[0] && p.1@ == old(
                    self,
                ).remaining_vals()[0]
                &&& final(self).remaining_keys() == old(self).remaining_keys().drop_first()
                &&& final(self).remaining_vals() == old(self).remaining_vals().drop_first()
            },
    {
        self.inner.next()
    }

    /// Yields the last remaining removed entry.
    pub fn next_back(&mut self) -> (r: Option<(AccessGuard, AccessGuard)>)
        requires
            old(self).wf(),
        ensures
            final(self).wf(),
            old(self).remaining_keys().len() == 0 ==> r is None && *final(self) == *old(self),
            old(self).remaining_keys().len() > 0 ==> {
                &&& r matches Some(p) && p.0@ == old(self).remaining_keys().last() && p.1@ == old(
                    self,
                ).remaining_vals().last()
                &&& final(self).remaining_keys() == old(self).remaining_keys().drop_last()
                &&& final(self).remaining_vals() == old(self).remaining_vals().drop_last()
            },
    {
        self.inner.next_back()
    }
}

/// The entries removed by a `Table::drain_filter` call, as a double-ended
/// cursor in ascending key order.
pub struct DrainFilter {
    inner: Range,
}

impl DrainFilter {
    pub closed spec fn inner_spec(&self) -> Range {
        self.inner
    }

    pub open spec fn wf(&self) -> bool {
        self.inner_spec().wf()
    }

    pub open spec fn remaining_keys(&self) -> Seq<Seq<u8>> {
        self.inner_spec().remaining_keys()
    }

    pub open spec fn remaining_vals(&self) -> Seq<Seq<u8>> {
        self.inner_spec().remaining_vals()
    }

    pub fn new(inner: Range) -> (r: DrainFilter)
        ensures
            r.inner_spec() == inner,
    {
        DrainFilter { inner }
    }

    /// Yields the first remaining removed entry.
    pub fn next(&mut self) -> (r: Option<(AccessGuard, AccessGuard)>)
        requires
            old(self).wf(),
        ensures
            final(self).wf(),
            old(self).remaining_keys().len() == 0 ==> r is None && *final(self) == *old(self),
            old(self).remaining_keys().len() > 0 ==> {
                &&& r matches Some(p) && p.0@ == old(self).remaining_keys()[0] && p.1@ == old(
                    self,
                ).remaining_vals()[0]
                &&& final(self).remaining_keys() == old(self).remaining_keys().drop_first()
                &&& final(self).remaining_vals() == old(self).remaining_vals().drop_first()
            },
    {
        self.inner.next()
    }

    /// Yields the last remaining removed entry.
    pub fn next_back(&mut self) -> (r: Option<(AccessGuard, AccessGuard)>)
        requires
            old(self).wf(),
        ensures
            final(self).wf(),
            old(self).remaining_keys().len() == 0 ==> r is None && *final(self) == *old(self),
            old(self).remaining_keys().len() > 0 ==> {
                &&& r matches Some(p) && p.0@ == old(self).remaining_keys().last() && p.1@ == old(
                    self,
                ).remaining_vals().last()
                &&& final(self).remaining_keys() == old(self).remaining_keys().drop_last()
                &&& final(self).remaining_vals() == old(self).remaining_vals().drop_last()
            },
    {
        self.inner.next_back()
    }
}

/// A named table of key-value mappings open under a write transaction.
///
/// The handle owns the table's tree while open; the transaction takes it back
/// through `into_parts` when the table closes.
pub struct Table {
    name: Vec<u8>,
    system: bool,
    key_fingerprint: u64,
    value_fingerprint: u64,
    tree: Tree,
}

impl Table {
    pub closed spec fn tree_spec(&self) -> Tree {
        self.tree
    }

    pub closed spec fn name_spec(&self) -> Seq<u8> {
        self.name@
    }

    pub closed spec fn system_spec(&self) -> bool {
        self.system
    }

    pub closed spec fn key_fingerprint_spec(&self) -> u64 {
        self.key_fingerprint
    }

    pub closed spec fn value_fingerprint_spec(&self) -> u64 {
        self.value_fingerprint
    }

    pub open spec fn wf(&self) -> bool {
        self.tree_spec().wf()
    }

    pub open spec fn key_seq(&self) -> Seq<Seq<u8>> {
        self.tree_spec().key_seq()
    }

    pub open spec fn val_seq(&self) -> Seq<Seq<u8>> {
        self.tree_spec().val_seq()
    }

    pub open spec fn len_spec(&self) -> nat {
        self.tree_spec().len_spec()
    }

    pub open spec fn contains_key(&self, k: Seq<u8>) -> bool {
        self.tree_spec().contains_key(k)
    }

    pub open spec fn spec_value(&self, k: Seq<u8>) -> Seq<u8> {
        self.tree_spec().spec_value(k)
    }

    pub open spec fn as_map(&self) -> Map<Seq<u8>, Seq<u8>> {
        self.tree_spec().as_map()
    }

    /// Opens a handle over a tree the transaction hands in.
    pub fn new(
        name: &[u8],
        system: bool,
        key_fingerprint: u64,
        value_fingerprint: u64,
        tree: Tree,
    ) -> (r: Table)
        requires
            tree.wf(),
        ensures
            r.wf(),
            r.name_spec() == name@,
            r.system_spec() == system,
            r.key_fingerprint_spec() == key_fingerprint,
            r.value_fingerprint_spec() == value_fingerprint,
            r.tree_spec() == tree,
    {
        Table {
            name: to_vec_bytes(name),
            system,
            key_fingerprint,
            value_fingerprint,
            tree,
        }
    }

    /// Gives the tree back to the transaction when the table closes.
    pub fn into_parts(self) -> (r: (Vec<u8>, bool, u64, u64, Tree))
        ensures
            r.0@ == self.name_spec(),
            r.1 == self.system_spec(),
            r.2 == self.key_fingerprint_spec(),
            r.3 == self.value_fingerprint_spec(),
            r.4 == self.tree_spec(),
    {
        (self.name, self.system, self.key_fingerprint, self.value_fingerprint, self.tree)
    }

    /// Returns the value bound to `key`, if any.
    pub fn get(&self, key: &[u8]) -> (r: Result<Option<AccessGuard>, StorageError>)
        requires
            self.wf(),
        ensures
            r matches Ok(o) && (o matches Some(g) ==> self.contains_key(key@) && g@
                == self.spec_value(key@)) && ((o is None) == !self.contains_key(key@)),
    {
        match self.tree.get(key) {
            Some(v) => Ok(Some(AccessGuard::new(to_vec_bytes(v.as_slice())))),
            None => Ok(None),
        }
    }

    /// Maps `key` to `value`, returning the superseded value if the key was
    /// present. Fails with `ValueTooLarge` when the value, or else the key,
    /// exceeds the per-entry cap; the table is then unchanged.
    pub fn insert(&mut self, key: &[u8], value: &[u8]) -> (r: Result<
        Option<AccessGuard>,
        StorageError,
    >)
        requires
            old(self).wf(),
        ensures
            final(self).wf(),
            final(self).name_spec() == old(self).name_spec(),
            final(self).system_spec() == old(self).system_spec(),
            final(self).key_fingerprint_spec() == old(self).key_fingerprint_spec(),
            final(self).value_fingerprint_spec() == old(self).value_fingerprint_spec(),
            value@.len() > MAX_VALUE_LENGTH ==> *final(self) == *old(self) && r == Err::<
                Option<AccessGuard>,
                StorageError,
            >(StorageError::ValueTooLarge(value@.len() as usize)),
            value@.len() <= MAX_VALUE_LENGTH && key@.len() > MAX_VALUE_LENGTH ==> *final(self)
                == *old(self) && r == Err::<Option<AccessGuard>, StorageError>(
                StorageError::ValueTooLarge(key@.len() as usize),
            ),
            value@.len() <= MAX_VALUE_LENGTH && key@.len() <= MAX_VALUE_LENGTH ==> {
                &&& r matches Ok(o)
                &&& final(self).contains_key(key@) && final(self).spec_value(key@) == value@
                &&& old(self).contains_key(key@) ==> final(self).key_seq() == old(self).key_seq()
                    && final(self).val_seq() == old(self).val_seq().update(
                    old(self).tree_spec().key_index(key@),
                    value@,
                ) && (o matches Some(g) && g@ == old(self).spec_value(key@))
                &&& !old(self).contains_key(key@) ==> final(self).key_seq() == old(
                    self,
                ).key_seq().insert(rank(old(self).key_seq(), key@), key@) && final(self).val_seq()
                    == old(self).val_seq().insert(rank(old(self).key_seq(), key@), value@) && (
                o is None)
            },
    {
        if value.len() > MAX_VALUE_LENGTH {
            return Err(StorageError::ValueTooLarge(value.len()));
        }
        if key.len() > MAX_VALUE_LENGTH {
            return Err(StorageError::ValueTooLarge(key.len()));
        }
        match self.tree.insert(to_vec_bytes(key), to_vec_bytes(value)) {
            Some(v) => Ok(Some(AccessGuard::new(v))),
            None => Ok(None),
        }
    }

    /// Removes `key`, returning the value it was bound to. Removing an
    /// absent key returns nothing and changes nothing, so removing twice is
    /// the same as removing once.
    pub fn remove(&mut self, key: &[u8]) -> (r: Result<Option<AccessGuard>, StorageError>)
        requires
            old(self).wf(),
        ensures
            final(self).wf(),
            final(self).name_spec() == old(self).name_spec(),
            final(self).system_spec() == old(self).system_spec(),
            final(self).key_fingerprint_spec() == old(self).key_fingerprint_spec(),
            final(self).value_fingerprint_spec() == old(self).value_fingerprint_spec(),
            !final(self).contains_key(key@),
            r matches Ok(o) && {
                &&& old(self).contains_key(key@) ==> final(self).key_seq() == old(
                    self,
                ).key_seq().remove(old(self).tree_spec().key_index(key@)) && final(self).val_seq()
                    == old(self).val_seq().remove(old(self).tree_spec().key_index(key@)) && (
                o matches Some(g) && g@ == old(self).spec_value(key@))
                &&& !old(self).contains_key(key@) ==> *final(self) == *old(self) && o is None
            },
    {
        match self.tree.remove(key) {
            Some(v) => Ok(Some(AccessGuard::new(v))),
            None => Ok(None),
        }
    }

    /// Reserves an entry of `value_length` bytes under `key`: the table
    /// binds the key to that many zeroed bytes, and the returned guard is a
    /// writable buffer of the same length, filled in place and stored back
    /// through `store_reserved`. Fails with `ValueTooLarge` as `insert`
    /// does.
    pub fn insert_reserve(&mut self, key: &[u8], value_length: u32) -> (r: Result<
        AccessGuardMut,
        StorageError,
    >)
        requires
            old(self).wf(),
        ensures
            final(self).wf(),
            final(self).name_spec() == old(self).name_spec(),
            final(self).system_spec() == old(self).system_spec(),
            final(self).key_fingerprint_spec() == old(self).key_fingerprint_spec(),
            final(self).value_fingerprint_spec() == old(self).value_fingerprint_spec(),
            value_length > MAX_VALUE_LENGTH ==> *final(self) == *old(self) && r == Err::<
                AccessGuardMut,
                StorageError,
            >(StorageError::ValueTooLarge(value_length as usize)),
            value_length <= MAX_VALUE_LENGTH && key@.len() > MAX_VALUE_LENGTH ==> *final(self)
                == *old(self) && r == Err::<AccessGuardMut, StorageError>(
                StorageError::ValueTooLarge(key@.len() as usize),
            ),
            value_length <= MAX_VALUE_LENGTH && key@.len() <= MAX_VALUE_LENGTH ==> {
                &&& r matches Ok(g)
                &&& g.wf()
                &&& g.key_spec() == key@
                &&& g.data_spec() == Seq::new(value_length as nat, |i: int| 0u8)
                &&& final(self).contains_key(key@)
                &&& final(self).spec_value(key@) == Seq::new(value_length as nat, |i: int| 0u8)
            },
    {
        if value_length as usize > MAX_VALUE_LENGTH {
            return Err(StorageError::ValueTooLarge(value_length as usize));
        }
        if key.len() > MAX_VALUE_LENGTH {
            return Err(StorageError::ValueTooLarge(key.len()));
        }
        let zeroes: Vec<u8> = vec![0u8; value_length as usize];
        let buffer: Vec<u8> = vec![0u8; value_length as usize];
        let ghost zv = zeroes@;
        self.tree.insert(to_vec_bytes(key), zeroes);
        let g = AccessGuardMut { key: to_vec_bytes(key), data: buffer };
        proof {
            assert(zv =~= Seq::new(value_length as nat, |i: int| 0u8));
            assert(g.data_spec() =~= Seq::new(value_length as nat, |i: int| 0u8));
        }
        Ok(g)
    }

    /// Stores a filled reservation: binds the guard's key to the bytes
    /// written through it, superseding the zeroed placeholder.
    pub fn store_reserved(&mut self, g: AccessGuardMut) -> (r: Result<(), StorageError>)
        requires
            old(self).wf(),
            g.wf(),
        ensures
            final(self).wf(),
            final(self).name_spec() == old(self).name_spec(),
            final(self).system_spec() == old(self).system_spec(),
            final(self).key_fingerprint_spec() == old(self).key_fingerprint_spec(),
            final(self).value_fingerprint_spec() == old(self).value_fingerprint_spec(),
            r is Ok,
            final(self).contains_key(g.key_spec()),
            final(self).spec_value(g.key_spec()) == g.data_spec(),
            old(self).contains_key(g.key_spec()) ==> final(self).key_seq() == old(self).key_seq()
                && final(self).val_seq() == old(self).val_seq().update(
                old(self).tree_spec().key_index(g.key_spec()),
                g.data_spec(),
            ),
            !old(self).contains_key(g.key_spec()) ==> final(self).key_seq() == old(
                self,
            ).key_seq().insert(rank(old(self).key_seq(), g.key_spec()), g.key_spec())
                && final(self).val_seq() == old(self).val_seq().insert(
                rank(old(self).key_seq(), g.key_spec()),
                g.data_spec(),
            ),
    {
        self.tree.insert(g.key, g.data);
        Ok(())
    }

    /// Removes and returns the first key-value pair.
    pub fn pop_first(&mut self) -> (r: Result<Option<(AccessGuard, AccessGuard)>, StorageError>)
        requires
            old(self).wf(),
        ensures
            final(self).wf(),
            final(self).name_spec() == old(self).name_spec(),
            final(self).system_spec() == old(self).system_spec(),
            final(self).key_fingerprint_spec() == old(self).key_fingerprint_spec(),
            final(self).value_fingerprint_spec() == old(self).value_fingerprint_spec(),
            r matches Ok(o) && {
                &&& old(self).len_spec() == 0 ==> o is None && *final(self) == *old(self)
                &&& old(self).len_spec() > 0 ==> {
                    &&& o matches Some(p) && p.0@ == old(self).key_seq()[0] && p.1@ == old(
                        self,
                    ).val_seq()[0]
                    &&& final(self).key_seq() == old(self).key_seq().drop_first()
                    &&& final(self).val_seq() == old(self).val_seq().drop_first()
                }
            },
    {
        match self.tree.pop_first() {
            Some((k, v)) => Ok(Some((AccessGuard::new(k), AccessGuard::new(v)))),
            None => Ok(None),
        }
    }

    /// Removes and returns the last key-value pair.
    pub fn pop_last(&mut self) -> (r: Result<Option<(AccessGuard, AccessGuard)>, StorageError>)
        requires
            old(self).wf(),
        ensures
            final(self).wf(),
            final(self).name_spec() == old(self).name_spec(),
            final(self).system_spec() == old(self).system_spec(),
            final(self).key_fingerprint_spec() == old(self).key_fingerprint_spec(),
            final(self).value_fingerprint_spec() == old(self).value_fingerprint_spec(),
            r matches Ok(o) && {
                &&& old(self).len_spec() == 0 ==> o is None && *final(self) == *old(self)
                &&& old(self).len_spec() > 0 ==> {
                    &&& o matches Some(p) && p.0@ == old(self).key_seq().last() && p.1@ == old(
                        self,
                    ).val_seq().last()
                    &&& final(self).key_seq() == old(self).key_seq().drop_last()
                    &&& final(self).val_seq() == old(self).val_seq().drop_last()
                }
            },
    {
        match self.tree.pop_last() {
            Some((k, v)) => Ok(Some((AccessGuard::new(k), AccessGuard::new(v)))),
            None => Ok(None),
        }
    }

    /// Copies out the entries of the half-open range `[lo, hi)` as a
    /// double-ended cursor; `None` bounds are unbounded.
    pub fn range(&self, lo: Option<&[u8]>, hi: Option<&[u8]>) -> (r: Result<Range, StorageError>)
        requires
            self.wf(),
        ensures
            r matches Ok(it) && it.wf() && it.remaining_keys() == self.key_seq().subrange(
                lo_cut(self.key_seq(), view_opt(lo)),
                hi_cut(self.key_seq(), view_opt(lo), view_opt(hi)),
            ) && it.remaining_vals() == self.val_seq().subrange(
                lo_cut(self.key_seq(), view_opt(lo)),
                hi_cut(self.key_seq(), view_opt(lo), view_opt(hi)),
            ),
    {
        let (ks, vs) = self.tree.range_entries(lo, hi);
        proof {
            let a = lo_cut(self.key_seq(), view_opt(lo));
            let b = hi_cut(self.key_seq(), view_opt(lo), view_opt(hi));
            match view_opt(lo) {
                Option::Some(l) => lemma_rank_props(self.key_seq(), l),
                Option::None => (),
            }
            match view_opt(hi) {
                Option::Some(h) => lemma_rank_props(self.key_seq(), h),
                Option::None => (),
            }
            assert(0 <= a <= b <= self.key_seq().len());
            assert(ks@.len() == seq_views(ks@).len() && seq_views(ks@).len() == b - a);
            assert(vs@.len() == seq_views(vs@).len() && seq_views(vs@).len() == b - a);
            assert forall|i: int, j: int| 0 <= i < j < seq_views(ks@).len() implies lex_lt(
                #[trigger] seq_views(ks@)[i],
                #[trigger] seq_views(ks@)[j],
            ) by {
                assert(seq_views(ks@)[i] == self.key_seq().subrange(a, b)[i]);
                assert(seq_views(ks@)[j] == self.key_seq().subrange(a, b)[j]);
                assert(self.key_seq().subrange(a, b)[i] == self.key_seq()[a + i]);
                assert(self.key_seq().subrange(a, b)[j] == self.key_seq()[a + j]);
            }
        }
        Ok(Range::new(ks, vs))
    }

    /// A cursor over every entry, in ascending key order.
    pub fn iter(&self) -> (r: Result<Range, StorageError>)
        requires
            self.wf(),
        ensures
            r matches Ok(it) && it.wf() && it.remaining_keys() == self.key_seq()
                && it.remaining_vals() == self.val_seq(),
    {
        let r = self.range(None, None);
        proof {
            assert(self.key_seq().subrange(0, self.key_seq().len() as int) =~= self.key_seq());
            assert(self.val_seq().subrange(0, self.val_seq().len() as int) =~= self.val_seq());
        }
        r
    }

    /// Removes the entries of the half-open range `[lo, hi)` and returns
    /// them as a cursor in ascending key order.
    pub fn drain(&mut self, lo: Option<&[u8]>, hi: Option<&[u8]>) -> (r: Result<
        Drain,
        StorageError,
    >)
        requires
            old(self).wf(),
        ensures
            final(self).wf(),
            final(self).name_spec() == old(self).name_spec(),
            final(self).system_spec() == old(self).system_spec(),
            final(self).key_fingerprint_spec() == old(self).key_fingerprint_spec(),
            final(self).value_fingerprint_spec() == old(self).value_fingerprint_spec(),
            r matches Ok(d) && d.wf() && ({
                let a = lo_cut(old(self).key_seq(), view_opt(lo));
                let b = hi_cut(old(self).key_seq(), view_opt(lo), view_opt(hi));
                let n = old(self).len_spec() as int;
                &&& d.remaining_keys() == old(self).key_seq().subrange(a, b)
                &&& d.remaining_vals() == old(self).val_seq().subrange(a, b)
                &&& final(self).key_seq() == old(self).key_seq().subrange(0, a) + old(
                    self,
                ).key_seq().subrange(b, n)
                &&& final(self).val_seq() == old(self).val_seq().subrange(0, a) + old(
                    self,
                ).val_seq().subrange(b, n)
            }),
    {
        let ghost pre = *self;
        let (ks, vs) = self.tree.drain(lo, hi);
        proof {
            let a = lo_cut(pre.key_seq(), view_opt(lo));
            let b = hi_cut(pre.key_seq(), view_opt(lo), view_opt(hi));
            match view_opt(lo) {
                Option::Some(l) => lemma_rank_props(pre.key_seq(), l),
                Option::None => (),
            }
            match view_opt(hi) {
                Option::Some(h) => lemma_rank_props(pre.key_seq(), h),
                Option::None => (),
            }
            assert(0 <= a <= b <= pre.key_seq().len());
            assert(ks@.len() == seq_views(ks@).len() && seq_views(ks@).len() == b - a);
            assert(vs@.len() == seq_views(vs@).len() && seq_views(vs@).len() == b - a);
            assert forall|i: int, j: int| 0 <= i < j < seq_views(ks@).len() implies lex_lt(
                #[trigger] seq_views(ks@)[i],
                #[trigger] seq_views(ks@)[j],
            ) by {
                assert(seq_views(ks@)[i] == pre.key_seq().subrange(a, b)[i]);
                assert(seq_views(ks@)[j] == pre.key_seq().subrange(a, b)[j]);
                assert(pre.key_seq().subrange(a, b)[i] == pre.key_seq()[a + i]);
                assert(pre.key_seq().subrange(a, b)[j] == pre.key_seq()[a + j]);
            }
        }
        Ok(Drain::new(Range::new(ks, vs)))
    }

    /// Applies `pred` to every entry of the half-open range `[lo, hi)`;
    /// removes exactly the entries it accepts and returns them as a cursor in
    /// ascending key order.
    pub fn drain_filter<F: Fn(&[u8], &[u8]) -> bool>(
        &mut self,
        lo: Option<&[u8]>,
        hi: Option<&[u8]>,
        pred: F,
    ) -> (r: Result<DrainFilter, StorageError>)
        requires
            old(self).wf(),
            forall|k: &[u8], v: &[u8]| #[trigger] call_requires(pred, (k, v)),
        ensures
            final(self).wf(),
            final(self).name_spec() == old(self).name_spec(),
            final(self).system_spec() == old(self).system_spec(),
            final(self).key_fingerprint_spec() == old(self).key_fingerprint_spec(),
            final(self).value_fingerprint_spec() == old(self).value_fingerprint_spec(),
            r matches Ok(d) && d.wf() && {
                &&& forall|j: int|
                    0 <= j < final(self).len_spec() ==> old(self).contains_key(
                        #[trigger] final(self).key_seq()[j],
                    ) && final(self).val_seq()[j] == old(self).spec_value(
                        final(self).key_seq()[j],
                    )
                &&& forall|t: int|
                    0 <= t < d.remaining_keys().len() ==> old(self).contains_key(
                        #[trigger] d.remaining_keys()[t],
                    ) && d.remaining_vals()[t] == old(self).spec_value(d.remaining_keys()[t])
                        && in_range(view_opt(lo), view_opt(hi), d.remaining_keys()[t])
                &&& forall|j: int|
                    0 <= j < old(self).len_spec() ==> (final(self).contains_key(
                        #[trigger] old(self).key_seq()[j],
                    ) <==> !d.remaining_keys().contains(old(self).key_seq()[j]))
                &&& forall|j: int|
                    0 <= j < old(self).len_spec() && !in_range(
                        view_opt(lo),
                        view_opt(hi),
                        #[trigger] old(self).key_seq()[j],
                    ) ==> final(self).contains_key(old(self).key_seq()[j])
                &&& forall|t: int|
                    0 <= t < d.remaining_keys().len() ==> pred_decides(
                        pred,
                        #[trigger] d.remaining_keys()[t],
                        d.remaining_vals()[t],
                        true,
                    )
                &&& forall|j: int|
                    0 <= j < old(self).len_spec() && in_range(
                        view_opt(lo),
                        view_opt(hi),
                        #[trigger] old(self).key_seq()[j],
                    ) && final(self).contains_key(old(self).key_seq()[j]) ==> pred_decides(
                        pred,
                        old(self).key_seq()[j],
                        old(self).spec_value(old(self).key_seq()[j]),
                        false,
                    )
            },
    {
        let (ks, vs) = self.tree.drain_filter(lo, hi, pred);
        let rng = Range::new(ks, vs);
        Ok(DrainFilter::new(rng))
    }

    /// Number of entries in the table.
    pub fn len(&self) -> (r: Result<u64, StorageError>)
        requires
            self.wf(),
        ensures
            r matches Ok(n) && n == self.len_spec(),
    {
        Ok(self.tree.len() as u64)
    }

    /// Whether the table holds no entry.
    pub fn is_empty(&self) -> (r: Result<bool, StorageError>)
        requires
            self.wf(),
        ensures
            r matches Ok(b) && b == (self.len_spec() == 0),
    {
        Ok(self.tree.is_empty())
    }
}

/// A table opened under a read transaction: a stable snapshot that later
/// commits do not touch.
pub struct ReadOnlyTable {
    tree: Tree,
}

impl ReadOnlyTable {
    pub closed spec fn tree_spec(&self) -> Tree {
        self.tree
    }

    pub open spec fn wf(&self) -> bool {
        self.tree_spec().wf()
    }

    pub open spec fn key_seq(&self) -> Seq<Seq<u8>> {
        self.tree_spec().key_seq()
    }

    pub open spec fn val_seq(&self) -> Seq<Seq<u8>> {
        self.tree_spec().val_seq()
    }

    pub open spec fn len_spec(&self) -> nat {
        self.tree_spec().len_spec()
    }

    pub open spec fn contains_key(&self, k: Seq<u8>) -> bool {
        self.tree_spec().contains_key(k)
    }

    pub open spec fn spec_value(&self, k: Seq<u8>) -> Seq<u8> {
        self.tree_spec().spec_value(k)
    }

    pub open spec fn as_map(&self) -> Map<Seq<u8>, Seq<u8>> {
        self.tree_spec().as_map()
    }

    /// Wraps the snapshot tree the transaction resolved for this table.
    pub fn new(tree: Tree) -> (r: Result<ReadOnlyTable, StorageError>)
        requires
            tree.wf(),
        ensures
            r matches Ok(t) && t.wf() && t.tree_spec() == tree,
    {
        Ok(ReadOnlyTable { tree })
    }

    /// Returns the value bound to `key`, if any.
    pub fn get(&self, key: &[u8]) -> (r: Result<Option<AccessGuard>, StorageError>)
        requires
            self.wf(),
        ensures
            r matches Ok(o) && (o matches Some(g) ==> self.contains_key(key@) && g@
                == self.spec_value(key@)) && ((o is None) == !self.contains_key(key@)),
    {
        match self.tree.get(key) {
            Some(v) => Ok(Some(AccessGuard::new(to_vec_bytes(v.as_slice())))),
            None => Ok(None),
        }
    }

    /// Copies out the entries of the half-open range `[lo, hi)` as a
    /// double-ended cursor; `None` bounds are unbounded.
    pub fn range(&self, lo: Option<&[u8]>, hi: Option<&[u8]>) -> (r: Result<Range, StorageError>)
        requires
            self.wf(),
        ensures
            r matches Ok(it) && it.wf() && it.remaining_keys() == self.key_seq().subrange(
                lo_cut(self.key_seq(), view_opt(lo)),
                hi_cut(self.key_seq(), view_opt(lo), view_opt(hi)),
            ) && it.remaining_vals() == self.val_seq().subrange(
                lo_cut(self.key_seq(), view_opt(lo)),
                hi_cut(self.key_seq(), view_opt(lo), view_opt(hi)),
            ),
    {
        let (ks, vs) = self.tree.range_entries(lo, hi);
        proof {
            let a = lo_cut(self.key_seq(), view_opt(lo));
            let b = hi_cut(self.key_seq(), view_opt(lo), view_opt(hi));
            match view_opt(lo) {
                Option::Some(l) => lemma_rank_props(self.key_seq(), l),
                Option::None => (),
            }
            match view_opt(hi) {
                Option::Some(h) => lemma_rank_props(self.key_seq(), h),
                Option::None => (),
            }
            assert(0 <= a <= b <= self.key_seq().len());
            assert(ks@.len() == seq_views(ks@).len() && seq_views(ks@).len() == b - a);
            assert(vs@.len() == seq_views(vs@).len() && seq_views(vs@).len() == b - a);
            assert forall|i: int, j: int| 0 <= i < j < seq_views(ks@).len() implies lex_lt(
                #[trigger] seq_views(ks@)[i],
                #[trigger] seq_views(ks@)[j],
            ) by {
                assert(seq_views(ks@)[i] == self.key_seq().subrange(a, b)[i]);
                assert(seq_views(ks@)[j] == self.key_seq().subrange(a, b)[j]);
                assert(self.key_seq().subrange(a, b)[i] == self.key_seq()[a + i]);
                assert(self.key_seq().subrange(a, b)[j] == self.key_seq()[a + j]);
            }
        }
        Ok(Range::new(ks, vs))
    }

    /// A cursor over every entry, in ascending key order.
    pub fn iter(&self) -> (r: Result<Range, StorageError>)
        requires
            self.wf(),
        ensures
            r matches Ok(it) && it.wf() && it.remaining_keys() == self.key_seq()
                && it.remaining_vals() == self.val_seq(),
    {
        let r = self.range(None, None);
        proof {
            assert(self.key_seq().subrange(0, self.key_seq().len() as int) =~= self.key_seq());
            assert(self.val_seq().subrange(0, self.val_seq().len() as int) =~= self.val_seq());
        }
        r
    }

    /// Number of entries in the table.
    pub fn len(&self) -> (r: Result<u64, StorageError>)
        requires
            self.wf(),
        ensures
            r matches Ok(n) && n == self.len_spec(),
    {
        Ok(self.tree.len() as u64)
    }

    /// Whether the table holds no entry.
    pub fn is_empty(&self) -> (r: Result<bool, StorageError>)
        requires
            self.wf(),
        ensures
            r matches Ok(b) && b == (self.len_spec() == 0),
    {
        Ok(self.tree.is_empty())
    }
}

} // verus!
