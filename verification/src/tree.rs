use vstd::prelude::*;

use crate::seqs::{
    bytes_cmp, bytes_eq, lemma_lex_asymmetric, lemma_lex_irreflexive, lemma_lex_total,
    lemma_lex_transitive, lex_lt, sorted_lex, to_vec_bytes,
};

verus! {

/// Number of keys in `ks` that sort strictly before `k`. For a sorted run
/// this is the slot where `k` lives or would be inserted.
pub open spec fn rank(ks: Seq<Seq<u8>>, k: Seq<u8>) -> int
    decreases ks.len(),
{
    if ks.len() == 0 {
        0
    } else {
        rank(ks.drop_last(), k) + if lex_lt(ks.last(), k) {
            1int
        } else {
            0int
        }
    }
}

/// In a sorted run, any split point with smaller keys before it and no
/// smaller key at or after it is the rank.
pub proof fn lemma_rank_split(ks: Seq<Seq<u8>>, k: Seq<u8>, p: int)
    requires
        0 <= p <= ks.len(),
        forall|j: int| 0 <= j < p ==> lex_lt(#[trigger] ks[j], k),
        forall|j: int| p <= j < ks.len() ==> !lex_lt(#[trigger] ks[j], k),
    ensures
        rank(ks, k) == p,
    decreases ks.len(),
{
    if ks.len() > 0 {
        if p == ks.len() {
            lemma_rank_split(ks.drop_last(), k, p - 1);
        } else {
            lemma_rank_split(ks.drop_last(), k, p);
        }
    }
}

/// A sorted run holds each key in at most one slot.
pub proof fn lemma_sorted_unique(ks: Seq<Seq<u8>>, i: int, j: int)
    requires
        sorted_lex(ks),
        0 <= i < ks.len(),
        0 <= j < ks.len(),
        ks[i] == ks[j],
    ensures
        i == j,
{
    if i < j {
        lemma_lex_asymmetric(ks[i], ks[j]);
    } else if j < i {
        lemma_lex_asymmetric(ks[j], ks[i]);
    }
}

/// The store's ordered map from encoded keys to encoded values: a sorted run
/// of key/value slots, superseded as a whole on mutation so that snapshots
/// stay stable. Keys are unique and strictly ascending in byte order.
pub struct Tree {
    keys: Vec<Vec<u8>>,
    values: Vec<Vec<u8>>,
}

impl Tree {
    /// The keys, in slot order.
    pub closed spec fn key_seq(&self) -> Seq<Seq<u8>> {
        Seq::new(self.keys@.len(), |i: int| self.keys@[i]@)
    }

    /// The values, in slot order.
    pub closed spec fn val_seq(&self) -> Seq<Seq<u8>> {
        Seq::new(self.values@.len(), |i: int| self.values@[i]@)
    }

    pub open spec fn wf(&self) -> bool {
        &&& self.key_seq().len() == self.val_seq().len()
        &&& sorted_lex(self.key_seq())
    }

    pub open spec fn len_spec(&self) -> nat {
        self.key_seq().len()
    }

    pub open spec fn contains_key(&self, k: Seq<u8>) -> bool {
        exists|i: int| 0 <= i < self.key_seq().len() && self.key_seq()[i] == k
    }

    /// Slot of key `k`, meaningful when `contains_key(k)`.
    pub open spec fn key_index(&self, k: Seq<u8>) -> int {
        choose|i: int| 0 <= i < self.key_seq().len() && self.key_seq()[i] == k
    }

    /// Value stored under `k`, meaningful when `contains_key(k)`.
    pub open spec fn spec_value(&self, k: Seq<u8>) -> Seq<u8> {
        self.val_seq()[self.key_index(k)]
    }

    /// The table as a mathematical map.
    pub open spec fn as_map(&self) -> Map<Seq<u8>, Seq<u8>> {
        Map::new(|k: Seq<u8>| self.contains_key(k), |k: Seq<u8>| self.spec_value(k))
    }

    /// The empty table.
    pub fn new() -> (r: Tree)
        ensures
            r.wf(),
            r.len_spec() == 0,
            forall|k: Seq<u8>| !r.contains_key(k),
    {
        Tree { keys: Vec::new(), values: Vec::new() }
    }

    /// Number of entries.
    pub fn len(&self) -> (r: usize)
        ensures
            r == self.len_spec(),
    {
        self.keys.len()
    }

    /// Whether the table holds no entry.
    pub fn is_empty(&self) -> (r: bool)
        ensures
            r == (self.len_spec() == 0),
    {
        self.keys.len() == 0
    }

    /// Key at slot `i`, as an owned copy.
    pub fn key_at(&self, i: usize) -> (r: Vec<u8>)
        requires
            self.wf(),
            i < self.len_spec(),
        ensures
            r@ == self.key_seq()[i as int],
    {
        to_vec_bytes(self.keys[i].as_slice())
    }

    /// Value at slot `i`, as an owned copy.
    pub fn value_at(&self, i: usize) -> (r: Vec<u8>)
        requires
            self.wf(),
            i < self.len_spec(),
        ensures
            r@ == self.val_seq()[i as int],
    {
        to_vec_bytes(self.values[i].as_slice())
    }

    /// First slot whose key does not sort before `key`: the rank of `key`.
    pub fn lower_bound(&self, key: &[u8]) -> (r: usize)
        requires
            self.wf(),
        ensures
            r <= self.len_spec(),
            forall|j: int| 0 <= j < r ==> lex_lt(#[trigger] self.key_seq()[j], key@),
            forall|j: int| r <= j < self.len_spec() ==> !lex_lt(#[trigger] self.key_seq()[j], key@),
            r == rank(self.key_seq(), key@),
    {
        let mut lo: usize = 0;
        let mut hi: usize = self.keys.len();
        while lo < hi
            invariant
                self.wf(),
                0 <= lo <= hi <= self.len_spec(),
                forall|j: int| 0 <= j < lo ==> lex_lt(#[trigger] self.key_seq()[j], key@),
                forall|j: int|
                    hi <= j < self.len_spec() ==> !lex_lt(#[trigger] self.key_seq()[j], key@),
            decreases hi - lo,
        {
            let mid = lo + (hi - lo) / 2;
            match bytes_cmp(self.keys[mid].as_slice(), key) {
                core::cmp::Ordering::Less => {
                    proof {
                        assert forall|j: int| 0 <= j < mid + 1 implies lex_lt(
                            #[trigger] self.key_seq()[j],
                            key@,
                        ) by {
                            if j < mid {
                                lemma_lex_transitive(
                                    self.key_seq()[j],
                                    self.key_seq()[mid as int],
                                    key@,
                                );
                            }
                        }
                    }
                    lo = mid + 1;
                },
                _ => {
                    proof {
                        assert forall|j: int| mid <= j < self.len_spec() implies !lex_lt(
                            #[trigger] self.key_seq()[j],
                            key@,
                        ) by {
                            if j > mid && lex_lt(self.key_seq()[j], key@) {
                                lemma_lex_transitive(
                                    self.key_seq()[mid as int],
                                    self.key_seq()[j],
                                    key@,
                                );
                            }
                        }
                    }
                    hi = mid;
                },
            }
        }
        proof {
            lemma_rank_split(self.key_seq(), key@, lo as int);
        }
        lo
    }

    /// Looks up `key`; returns a borrow of its value if present.
    pub fn get(&self, key: &[u8]) -> (r: Option<&Vec<u8>>)
        requires
            self.wf(),
        ensures
            r matches Some(v) ==> self.contains_key(key@) && v@ == self.spec_value(key@),
            r is None ==> !self.contains_key(key@),
    {
        let i = self.lower_bound(key);
        if i < self.keys.len() && bytes_eq(self.keys[i].as_slice(), key) {
            proof {
                self.lemma_found_at(key@, i as int);
            }
            Some(&self.values[i])
        } else {
            proof {
                self.lemma_absent_at(key@, i as int);
            }
            None
        }
    }

    /// If slot `i` holds `k`, then `k` is present with that slot as its index.
    proof fn lemma_found_at(&self, k: Seq<u8>, i: int)
        requires
            self.wf(),
            0 <= i < self.len_spec(),
            self.key_seq()[i] == k,
        ensures
            self.contains_key(k),
            self.key_index(k) == i,
            self.spec_value(k) == self.val_seq()[i],
    {
        assert(self.contains_key(k));
        lemma_sorted_unique(self.key_seq(), self.key_index(k), i);
    }

    /// If the slot at `k`'s rank does not hold `k`, no slot does.
    proof fn lemma_absent_at(&self, k: Seq<u8>, r: int)
        requires
            self.wf(),
            0 <= r <= self.len_spec(),
            forall|j: int| 0 <= j < r ==> lex_lt(#[trigger] self.key_seq()[j], k),
            forall|j: int| r <= j < self.len_spec() ==> !lex_lt(#[trigger] self.key_seq()[j], k),
            r < self.len_spec() ==> self.key_seq()[r] != k,
        ensures
            !self.contains_key(k),
    {
        assert forall|j: int| 0 <= j < self.len_spec() implies self.key_seq()[j] != k by {
            if j < r {
                lemma_lex_asymmetric(self.key_seq()[j], k);
            } else if j > r {
                if self.key_seq()[j] == k {
                    assert(lex_lt(self.key_seq()[r], self.key_seq()[j]));
                }
            }
        }
    }

    /// Maps `key` to `value`, superseding any previous binding; returns the
    /// superseded value.
    ///
    /// Inserting a fresh key places it at its rank, keeping the run sorted;
    /// rewriting an existing key leaves the key run unchanged.
    pub fn insert(&mut self, key: Vec<u8>, value: Vec<u8>) -> (r: Option<Vec<u8>>)
        requires
            old(self).wf(),
        ensures
            final(self).wf(),
            final(self).contains_key(key@),
            final(self).spec_value(key@) == value@,
            old(self).contains_key(key@) ==> {
                &&& final(self).key_seq() == old(self).key_seq()
                &&& final(self).val_seq() == old(self).val_seq().update(
                    old(self).key_index(key@),
                    value@,
                )
                &&& r matches Some(v) && v@ == old(self).spec_value(key@)
            },
            !old(self).contains_key(key@) ==> {
                &&& final(self).key_seq() == old(self).key_seq().insert(
                    rank(old(self).key_seq(), key@),
                    key@,
                )
                &&& final(self).val_seq() == old(self).val_seq().insert(
                    rank(old(self).key_seq(), key@),
                    value@,
                )
                &&& r is None
            },
    {
        let ghost pre = *self;
        let i = self.lower_bound(key.as_slice());
        if i < self.keys.len() && bytes_eq(self.keys[i].as_slice(), key.as_slice()) {
            proof {
                pre.lemma_found_at(key@, i as int);
            }
            let old_v = self.values.remove(i);
            self.values.insert(i, value);
            proof {
                assert(self.key_seq() =~= pre.key_seq());
                assert(self.val_seq() =~= pre.val_seq().update(i as int, value@));
                self.lemma_found_at(key@, i as int);
            }
            Some(old_v)
        } else {
            proof {
                pre.lemma_absent_at(key@, i as int);
            }
            self.keys.insert(i, key);
            self.values.insert(i, value);
            proof {
                assert(self.key_seq() =~= pre.key_seq().insert(i as int, key@));
                assert(self.val_seq() =~= pre.val_seq().insert(i as int, value@));
                self.lemma_sorted_after_insert(pre, key@, i as int);
                self.lemma_found_at(key@, i as int);
            }
            None
        }
    }

    /// Inserting a fresh key at its rank keeps the run sorted.
    proof fn lemma_sorted_after_insert(&self, pre: Tree, k: Seq<u8>, p: int)
        requires
            pre.wf(),
            0 <= p <= pre.len_spec(),
            forall|j: int| 0 <= j < p ==> lex_lt(#[trigger] pre.key_seq()[j], k),
            forall|j: int| p <= j < pre.len_spec() ==> !lex_lt(#[trigger] pre.key_seq()[j], k),
            p < pre.len_spec() ==> pre.key_seq()[p] != k,
            self.key_seq() == pre.key_seq().insert(p, k),
            self.val_seq().len() == self.key_seq().len(),
        ensures
            self.wf(),
    {
        let ks = self.key_seq();
        assert forall|i: int, j: int| 0 <= i < j < ks.len() implies lex_lt(
            #[trigger] ks[i],
            #[trigger] ks[j],
        ) by {
            let old_ks = pre.key_seq();
            assert(forall|t: int| 0 <= t < p ==> ks[t] == old_ks[t]);
            assert(ks[p] == k);
            assert(forall|t: int| p < t < ks.len() ==> ks[t] == old_ks[t - 1]);
            if i == p {
                // k versus a later old key, which can be neither smaller nor equal
                let t = j - 1;
                assert(!lex_lt(old_ks[t], k));
                if old_ks[t] == k {
                    assert(t != p);
                    assert(lex_lt(old_ks[p], old_ks[t]));
                    assert(false);
                }
                if !lex_lt(k, old_ks[t]) {
                    lemma_lex_total(old_ks[t], k);
                    assert(false);
                }
            } else if j == p {
                // an earlier old key versus k
            } else {
                // two old keys
            }
        }
    }

    /// Removes `key`; returns the value it was bound to. Removing an absent
    /// key changes nothing, so a second removal of the same key returns
    /// nothing.
    pub fn remove(&mut self, key: &[u8]) -> (r: Option<Vec<u8>>)
        requires
            old(self).wf(),
        ensures
            final(self).wf(),
            !final(self).contains_key(key@),
            old(self).contains_key(key@) ==> {
                &&& final(self).key_seq() == old(self).key_seq().remove(old(self).key_index(key@))
                &&& final(self).val_seq() == old(self).val_seq().remove(old(self).key_index(key@))
                &&& r matches Some(v) && v@ == old(self).spec_value(key@)
            },
            !old(self).contains_key(key@) ==> *final(self) == *old(self) && r is None,
    {
        let ghost pre = *self;
        let i = self.lower_bound(key);
        if i < self.keys.len() && bytes_eq(self.keys[i].as_slice(), key) {
            proof {
                pre.lemma_found_at(key@, i as int);
            }
            self.keys.remove(i);
            let old_v = self.values.remove(i);
            proof {
                assert(self.key_seq() =~= pre.key_seq().remove(i as int));
                assert(self.val_seq() =~= pre.val_seq().remove(i as int));
                self.lemma_sorted_after_remove(pre, i as int);
                self.lemma_not_contains_after_remove(pre, key@, i as int);
            }
            Some(old_v)
        } else {
            proof {
                pre.lemma_absent_at(key@, i as int);
            }
            None
        }
    }

    /// Removing a slot keeps the run sorted.
    proof fn lemma_sorted_after_remove(&self, pre: Tree, p: int)
        requires
            pre.wf(),
            0 <= p < pre.len_spec(),
            self.key_seq() == pre.key_seq().remove(p),
            self.val_seq().len() == self.key_seq().len(),
        ensures
            self.wf(),
    {
        let ks = self.key_seq();
        let old_ks = pre.key_seq();
        assert forall|i: int, j: int| 0 <= i < j < ks.len() implies lex_lt(
            #[trigger] ks[i],
            #[trigger] ks[j],
        ) by {
            assert(forall|t: int| 0 <= t < p ==> ks[t] == old_ks[t]);
            assert(forall|t: int| p <= t < ks.len() ==> ks[t] == old_ks[t + 1]);
        }
    }

    /// After removing the only slot holding `k`, the key is absent.
    proof fn lemma_not_contains_after_remove(&self, pre: Tree, k: Seq<u8>, p: int)
        requires
            pre.wf(),
            0 <= p < pre.len_spec(),
            pre.key_seq()[p] == k,
            self.key_seq() == pre.key_seq().remove(p),
        ensures
            !self.contains_key(k),
    {
        let ks = self.key_seq();
        let old_ks = pre.key_seq();
        assert forall|j: int| 0 <= j < ks.len() implies ks[j] != k by {
            if j < p {
                assert(ks[j] == old_ks[j]);
                if ks[j] == k {
                    lemma_sorted_unique(old_ks, j, p);
                }
            } else {
                assert(ks[j] == old_ks[j + 1]);
                if ks[j] == k {
                    lemma_sorted_unique(old_ks, j + 1, p);
                }
            }
        }
    }
    /// Removes and returns the first key-value pair.
    pub fn pop_first(&mut self) -> (r: Option<(Vec<u8>, Vec<u8>)>)
        requires
            old(self).wf(),
        ensures
            final(self).wf(),
            old(self).len_spec() == 0 ==> r is None && *final(self) == *old(self),
            old(self).len_spec() > 0 ==> {
                &&& r matches Some(p) && p.0@ == old(self).key_seq()[0] && p.1@ == old(
                    self,
                ).val_seq()[0]
                &&& final(self).key_seq() == old(self).key_seq().drop_first()
                &&& final(self).val_seq() == old(self).val_seq().drop_first()
            },
    {
        let ghost pre = *self;
        if self.keys.len() == 0 {
            None
        } else {
            let k = self.keys.remove(0);
            let v = self.values.remove(0);
            proof {
                assert(self.key_seq() =~= pre.key_seq().remove(0));
                assert(self.val_seq() =~= pre.val_seq().remove(0));
                self.lemma_sorted_after_remove(pre, 0);
                assert(pre.key_seq().remove(0) =~= pre.key_seq().drop_first());
                assert(pre.val_seq().remove(0) =~= pre.val_seq().drop_first());
            }
            Some((k, v))
        }
    }

    /// Removes and returns the last key-value pair.
    pub fn pop_last(&mut self) -> (r: Option<(Vec<u8>, Vec<u8>)>)
        requires
            old(self).wf(),
        ensures
            final(self).wf(),
            old(self).len_spec() == 0 ==> r is None && *final(self) == *old(self),
            old(self).len_spec() > 0 ==> {
                &&& r matches Some(p) && p.0@ == old(self).key_seq().last() && p.1@ == old(
                    self,
                ).val_seq().last()
                &&& final(self).key_seq() == old(self).key_seq().drop_last()
                &&& final(self).val_seq() == old(self).val_seq().drop_last()
            },
    {
        let ghost pre = *self;
        if self.keys.len() == 0 {
            None
        } else {
            let i = self.keys.len() - 1;
            let k = self.keys.remove(i);
            let v = self.values.remove(i);
            proof {
                assert(self.key_seq() =~= pre.key_seq().drop_last());
                assert(self.val_seq() =~= pre.val_seq().drop_last());
                assert(self.key_seq() =~= pre.key_seq().remove(i as int));
                self.lemma_sorted_after_remove(pre, i as int);
            }
            Some((k, v))
        }
    }
}

/// Whether `k` lies at or above the inclusive lower bound `lo`
/// (`None` is unbounded).
pub open spec fn above_lo(lo: Option<Seq<u8>>, k: Seq<u8>) -> bool {
    match lo {
        Option::None => true,
        Option::Some(l) => !lex_lt(k, l),
    }
}

/// Whether `k` lies strictly below the exclusive upper bound `hi`
/// (`None` is unbounded).
pub open spec fn below_hi(hi: Option<Seq<u8>>, k: Seq<u8>) -> bool {
    match hi {
        Option::None => true,
        Option::Some(h) => lex_lt(k, h),
    }
}

/// Whether `k` lies in the half-open range `[lo, hi)`.
pub open spec fn in_range(lo: Option<Seq<u8>>, hi: Option<Seq<u8>>, k: Seq<u8>) -> bool {
    above_lo(lo, k) && below_hi(hi, k)
}

/// View of an optional byte-slice bound.
pub open spec fn view_opt(o: Option<&[u8]>) -> Option<Seq<u8>> {
    match o {
        Option::None => Option::None,
        Option::Some(s) => Option::Some(s@),
    }
}

/// First slot at or above the lower bound.
pub open spec fn lo_cut(ks: Seq<Seq<u8>>, lo: Option<Seq<u8>>) -> int {
    match lo {
        Option::None => 0,
        Option::Some(l) => rank(ks, l),
    }
}

/// First slot at or above the upper bound, clamped so the range is never
/// inverted.
pub open spec fn hi_cut(ks: Seq<Seq<u8>>, lo: Option<Seq<u8>>, hi: Option<Seq<u8>>) -> int {
    let a = lo_cut(ks, lo);
    let b = match hi {
        Option::None => ks.len() as int,
        Option::Some(h) => rank(ks, h),
    };
    if b < a {
        a
    } else {
        b
    }
}

/// In a sorted run, the rank splits the keys: everything before it sorts
/// below `k`, nothing at or after it does.
pub proof fn lemma_rank_props(ks: Seq<Seq<u8>>, k: Seq<u8>)
    requires
        sorted_lex(ks),
    ensures
        0 <= rank(ks, k) <= ks.len(),
        forall|j: int| 0 <= j < rank(ks, k) ==> lex_lt(#[trigger] ks[j], k),
        forall|j: int| rank(ks, k) <= j < ks.len() ==> !lex_lt(#[trigger] ks[j], k),
    decreases ks.len(),
{
    if ks.len() > 0 {
        let pre = ks.drop_last();
        assert(forall|j: int| 0 <= j < pre.len() ==> pre[j] == ks[j]);
        assert(sorted_lex(pre)) by {
            assert(forall|i: int, j: int|
                0 <= i < j < pre.len() ==> pre[i] == ks[i] && pre[j] == ks[j]);
        }
        lemma_rank_props(pre, k);
        let r = rank(pre, k);
        if lex_lt(ks.last(), k) {
            if r < pre.len() {
                lemma_lex_transitive(pre[r], ks[ks.len() - 1], k);
                assert(false);
            }
            assert(rank(ks, k) == ks.len());
        } else {
            assert(rank(ks, k) == r);
            assert forall|j: int| r <= j < ks.len() implies !lex_lt(#[trigger] ks[j], k) by {
                if j < ks.len() - 1 {
                    assert(!lex_lt(pre[j], k));
                }
            }
        }
    }
}

/// Membership in the cut interval coincides with membership in the half-open
/// key range.
pub proof fn lemma_range_membership(
    ks: Seq<Seq<u8>>,
    lo: Option<Seq<u8>>,
    hi: Option<Seq<u8>>,
    j: int,
)
    requires
        sorted_lex(ks),
        0 <= j < ks.len(),
    ensures
        (lo_cut(ks, lo) <= j < hi_cut(ks, lo, hi)) <==> in_range(lo, hi, ks[j]),
{
    let a = lo_cut(ks, lo);
    let b = match hi {
        Option::None => ks.len() as int,
        Option::Some(h) => rank(ks, h),
    };
    match lo {
        Option::Some(l) => lemma_rank_props(ks, l),
        Option::None => (),
    }
    match hi {
        Option::Some(h) => lemma_rank_props(ks, h),
        Option::None => (),
    }
    assert((a <= j) == above_lo(lo, ks[j]));
    assert((j < b) == below_hi(hi, ks[j]));
}

impl Tree {
    /// Cut points of the half-open range `[lo, hi)` in this table.
    fn cut_indices(&self, lo: Option<&[u8]>, hi: Option<&[u8]>) -> (r: (usize, usize))
        requires
            self.wf(),
        ensures
            r.0 == lo_cut(self.key_seq(), view_opt(lo)),
            r.1 == hi_cut(self.key_seq(), view_opt(lo), view_opt(hi)),
            r.0 <= r.1 <= self.len_spec(),
    {
        let a: usize = match lo {
            Option::None => 0,
            Option::Some(l) => self.lower_bound(l),
        };
        let b0: usize = match hi {
            Option::None => self.keys.len(),
            Option::Some(h) => self.lower_bound(h),
        };
        let b = if b0 < a {
            a
        } else {
            b0
        };
        (a, b)
    }

    /// Copies out the entries of the half-open range `[lo, hi)`, in ascending
    /// key order. `None` bounds are unbounded; `iter` is the full range.
    pub fn range_entries(&self, lo: Option<&[u8]>, hi: Option<&[u8]>) -> (r: (
        Vec<Vec<u8>>,
        Vec<Vec<u8>>,
    ))
        requires
            self.wf(),
        ensures
            ({
                let a = lo_cut(self.key_seq(), view_opt(lo));
                let b = hi_cut(self.key_seq(), view_opt(lo), view_opt(hi));
                &&& seq_views(r.0@) == self.key_seq().subrange(a, b)
                &&& seq_views(r.1@) == self.val_seq().subrange(a, b)
            }),
    {
        let (a, b) = self.cut_indices(lo, hi);
        let mut out_k: Vec<Vec<u8>> = Vec::new();
        let mut out_v: Vec<Vec<u8>> = Vec::new();
        let mut i = a;
        while i < b
            invariant
                self.wf(),
                a <= i <= b <= self.len_spec(),
                seq_views(out_k@) =~= self.key_seq().subrange(a as int, i as int),
                seq_views(out_v@) =~= self.val_seq().subrange(a as int, i as int),
            decreases b - i,
        {
            let kv = self.key_at(i);
            let vv = self.value_at(i);
            let ghost prev_k = out_k@;
            let ghost prev_v = out_v@;
            let ghost gk = kv;
            let ghost gv = vv;
            out_k.push(kv);
            out_v.push(vv);
            proof {
                lemma_seq_views_push(prev_k, gk);
                lemma_seq_views_push(prev_v, gv);
                assert(seq_views(out_k@) =~= self.key_seq().subrange(a as int, i + 1));
                assert(seq_views(out_v@) =~= self.val_seq().subrange(a as int, i + 1));
            }
            i += 1;
        }
        proof {
            assert(seq_views(out_k@) =~= self.key_seq().subrange(
                lo_cut(self.key_seq(), view_opt(lo)),
                hi_cut(self.key_seq(), view_opt(lo), view_opt(hi)),
            ));
            assert(seq_views(out_v@) =~= self.val_seq().subrange(
                lo_cut(self.key_seq(), view_opt(lo)),
                hi_cut(self.key_seq(), view_opt(lo), view_opt(hi)),
            ));
        }
        (out_k, out_v)
    }

    /// Removes the entries of the half-open range `[lo, hi)` from the table
    /// and returns them, in ascending key order.
    pub fn drain(&mut self, lo: Option<&[u8]>, hi: Option<&[u8]>) -> (r: (
        Vec<Vec<u8>>,
        Vec<Vec<u8>>,
    ))
        requires
            old(self).wf(),
        ensures
            final(self).wf(),
            ({
                let a = lo_cut(old(self).key_seq(), view_opt(lo));
                let b = hi_cut(old(self).key_seq(), view_opt(lo), view_opt(hi));
                let n = old(self).len_spec() as int;
                &&& seq_views(r.0@) == old(self).key_seq().subrange(a, b)
                &&& seq_views(r.1@) == old(self).val_seq().subrange(a, b)
                &&& final(self).key_seq() == old(self).key_seq().subrange(0, a) + old(
                    self,
                ).key_seq().subrange(b, n)
                &&& final(self).val_seq() == old(self).val_seq().subrange(0, a) + old(
                    self,
                ).val_seq().subrange(b, n)
            }),
    {
        let ghost pre = *self;
        let (a, b) = self.cut_indices(lo, hi);
        let mut tail_k = self.keys.split_off(a);
        let mut tail_v = self.values.split_off(a);
        let mut rest_k = tail_k.split_off(b - a);
        let mut rest_v = tail_v.split_off(b - a);
        self.keys.append(&mut rest_k);
        self.values.append(&mut rest_v);
        proof {
            let ga = a as int;
            let gb = b as int;
            let n = pre.len_spec() as int;
            assert(seq_views(tail_k@) =~= pre.key_seq().subrange(ga, gb));
            assert(seq_views(tail_v@) =~= pre.val_seq().subrange(ga, gb));
            assert(self.key_seq() =~= pre.key_seq().subrange(0, ga) + pre.key_seq().subrange(
                gb,
                n,
            ));
            assert(self.val_seq() =~= pre.val_seq().subrange(0, ga) + pre.val_seq().subrange(
                gb,
                n,
            ));
            assert forall|i: int, j: int| 0 <= i < j < self.key_seq().len() implies lex_lt(
                #[trigger] self.key_seq()[i],
                #[trigger] self.key_seq()[j],
            ) by {
                let ks = pre.key_seq();
                let oi = if i < ga {
                    i
                } else {
                    i + (gb - ga)
                };
                let oj = if j < ga {
                    j
                } else {
                    j + (gb - ga)
                };
                assert(self.key_seq()[i] == ks[oi]);
                assert(self.key_seq()[j] == ks[oj]);
            }
        }
        (tail_k, tail_v)
    }
}

/// Whether a call of `pred` on some slices viewing `k` and `v` can return `b`.
pub open spec fn pred_decides<F: Fn(&[u8], &[u8]) -> bool>(
    pred: F,
    k: Seq<u8>,
    v: Seq<u8>,
    b: bool,
) -> bool {
    exists|kr: &[u8], vr: &[u8]| kr@ == k && vr@ == v && #[trigger] call_ensures(pred, (kr, vr), b)
}

impl Tree {
    /// Applies `pred` to every entry of the half-open range `[lo, hi)`;
    /// removes and returns, in ascending key order, exactly the entries for
    /// which it returned true. Entries outside the range are untouched.
    pub fn drain_filter<F: Fn(&[u8], &[u8]) -> bool>(
        &mut self,
        lo: Option<&[u8]>,
        hi: Option<&[u8]>,
        pred: F,
    ) -> (r: (Vec<Vec<u8>>, Vec<Vec<u8>>))
        requires
            old(self).wf(),
            forall|k: &[u8], v: &[u8]| #[trigger] call_requires(pred, (k, v)),
        ensures
            final(self).wf(),
            sorted_lex(seq_views(r.0@)),
            r.0@.len() == r.1@.len(),
            // every remaining entry was present, with its value kept
            forall|j: int|
                0 <= j < final(self).len_spec() ==> old(self).contains_key(
                    #[trigger] final(self).key_seq()[j],
                ) && final(self).val_seq()[j] == old(self).spec_value(final(self).key_seq()[j]),
            // every drained entry was present in the range, with its value
            forall|t: int|
                0 <= t < r.0@.len() ==> old(self).contains_key(#[trigger] seq_views(r.0@)[t])
                    && seq_views(r.1@)[t] == old(self).spec_value(seq_views(r.0@)[t]) && in_range(
                    view_opt(lo),
                    view_opt(hi),
                    seq_views(r.0@)[t],
                ),
            // each old key lands in exactly one of the two sides
            forall|j: int|
                0 <= j < old(self).len_spec() ==> (final(self).contains_key(
                    #[trigger] old(self).key_seq()[j],
                ) <==> !seq_views(r.0@).contains(old(self).key_seq()[j])),
            // keys outside the range always stay
            forall|j: int|
                0 <= j < old(self).len_spec() && !in_range(
                    view_opt(lo),
                    view_opt(hi),
                    #[trigger] old(self).key_seq()[j],
                ) ==> final(self).contains_key(old(self).key_seq()[j]),
            // a drained entry is one the predicate accepted
            forall|t: int|
                0 <= t < r.0@.len() ==> pred_decides(
                    pred,
                    #[trigger] seq_views(r.0@)[t],
                    seq_views(r.1@)[t],
                    true,
                ),
            // an in-range entry that stays is one the predicate rejected
            forall|j: int|
                0 <= j < old(self).len_spec() && in_range(
                    view_opt(lo),
                    view_opt(hi),
                    #[trigger] old(self).key_seq()[j],
                ) && final(self).contains_key(old(self).key_seq()[j]) ==> pred_decides(
                    pred,
                    old(self).key_seq()[j],
                    old(self).spec_value(old(self).key_seq()[j]),
                    false,
                ),
    {
        let ghost pre = *self;
        let (a, b) = self.cut_indices(lo, hi);
        let n = self.keys.len();
        let mut keep_k: Vec<Vec<u8>> = Vec::new();
        let mut keep_v: Vec<Vec<u8>> = Vec::new();
        let mut out_k: Vec<Vec<u8>> = Vec::new();
        let mut out_v: Vec<Vec<u8>> = Vec::new();
        let mut i: usize = 0;
        while i < n
            invariant
                pre.wf(),
                *self == pre,
                n == pre.len_spec(),
                a == lo_cut(pre.key_seq(), view_opt(lo)),
                b == hi_cut(pre.key_seq(), view_opt(lo), view_opt(hi)),
                a <= b <= n,
                0 <= i <= n,
                keep_k@.len() == keep_v@.len(),
                out_k@.len() == out_v@.len(),
                forall|k: &[u8], v: &[u8]| #[trigger] call_requires(pred, (k, v)),
                sorted_lex(seq_views(keep_k@)),
                sorted_lex(seq_views(out_k@)),
                forall|t: int|
                    0 <= t < keep_k@.len() ==> exists|j: int|
                        0 <= j < i && #[trigger] seq_views(keep_k@)[t]
                            == #[trigger] pre.key_seq()[j] && seq_views(keep_v@)[t]
                            == pre.val_seq()[j],
                forall|t: int|
                    0 <= t < out_k@.len() ==> exists|j: int|
                        0 <= j < i && #[trigger] seq_views(out_k@)[t]
                            == #[trigger] pre.key_seq()[j] && seq_views(out_v@)[t]
                            == pre.val_seq()[j] && a <= j < b,
                forall|j: int|
                    0 <= j < i ==> (seq_views(keep_k@).contains(#[trigger] pre.key_seq()[j])
                        <==> !seq_views(out_k@).contains(pre.key_seq()[j])),
                forall|j: int|
                    0 <= j < i ==> seq_views(keep_k@).contains(#[trigger] pre.key_seq()[j])
                        || seq_views(out_k@).contains(pre.key_seq()[j]),
                forall|j: int|
                    0 <= j < i && !(a <= j < b) ==> seq_views(keep_k@).contains(
                        #[trigger] pre.key_seq()[j],
                    ),
                forall|t: int|
                    0 <= t < out_k@.len() ==> pred_decides(
                        pred,
                        #[trigger] seq_views(out_k@)[t],
                        seq_views(out_v@)[t],
                        true,
                    ),
                forall|j: int|
                    0 <= j < i && a <= j < b && seq_views(keep_k@).contains(
                        #[trigger] pre.key_seq()[j],
                    ) ==> pred_decides(pred, pre.key_seq()[j], pre.val_seq()[j], false),
            decreases n - i,
        {
            let kv = self.key_at(i);
            let vv = self.value_at(i);
            let ghost gk = kv;
            let ghost gv = vv;
            let in_rng = a <= i && i < b;
            let take = if in_rng {
                pred(kv.as_slice(), vv.as_slice())
            } else {
                false
            };
            proof {
                let ks = pre.key_seq();
                let gi = i as int;
                assert forall|t: int|
                    0 <= t < seq_views(keep_k@).len() implies #[trigger] seq_views(keep_k@)[t]
                    != ks[gi] && lex_lt(seq_views(keep_k@)[t], ks[gi]) by {
                    let j = choose|j: int|
                        0 <= j < i && #[trigger] seq_views(keep_k@)[t] == #[trigger] ks[j]
                            && seq_views(keep_v@)[t] == pre.val_seq()[j];
                    assert(lex_lt(ks[j], ks[gi]));
                    if seq_views(keep_k@)[t] == ks[gi] {
                        lemma_sorted_unique(ks, j, gi);
                    }
                }
                assert forall|t: int|
                    0 <= t < seq_views(out_k@).len() implies #[trigger] seq_views(out_k@)[t]
                    != ks[gi] && lex_lt(seq_views(out_k@)[t], ks[gi]) by {
                    let j = choose|j: int|
                        0 <= j < i && #[trigger] seq_views(out_k@)[t] == #[trigger] ks[j]
                            && seq_views(out_v@)[t] == pre.val_seq()[j] && a <= j < b;
                    assert(lex_lt(ks[j], ks[gi]));
                    if seq_views(out_k@)[t] == ks[gi] {
                        lemma_sorted_unique(ks, j, gi);
                    }
                }
                assert(!seq_views(keep_k@).contains(ks[gi]));
                assert(!seq_views(out_k@).contains(ks[gi]));
            }
            if take {
                let ghost prev_k = out_k@;
                let ghost prev_v = out_v@;
                out_k.push(kv);
                out_v.push(vv);
                proof {
                    lemma_seq_views_push(prev_k, gk);
                    lemma_seq_views_push(prev_v, gv);
                    let ks = pre.key_seq();
                    let gi = i as int;
                    lemma_push_sorted(seq_views(prev_k), ks[gi]);
                    assert(seq_views(out_k@) =~= seq_views(prev_k).push(ks[gi]));
                    assert(seq_views(out_v@) =~= seq_views(prev_v).push(pre.val_seq()[gi]));
                    assert(a <= i < b);
                    assert forall|t: int| 0 <= t < out_k@.len() implies exists|j: int|
                        0 <= j < i + 1 && #[trigger] seq_views(out_k@)[t] == #[trigger] ks[j]
                            && seq_views(out_v@)[t] == pre.val_seq()[j] && a <= j < b by {
                        if t < prev_k.len() {
                            let j = choose|j: int|
                                0 <= j < i && #[trigger] seq_views(prev_k)[t] == #[trigger] ks[j]
                                    && seq_views(prev_v)[t] == pre.val_seq()[j] && a <= j < b;
                            assert(0 <= j < i + 1 && seq_views(out_k@)[t] == ks[j] && seq_views(
                                out_v@,
                            )[t] == pre.val_seq()[j] && a <= j < b);
                        } else {
                            assert(0 <= gi < i + 1 && seq_views(out_k@)[t] == ks[gi] && seq_views(
                                out_v@,
                            )[t] == pre.val_seq()[gi] && a <= gi < b);
                        }
                    }
                    assert forall|t: int| 0 <= t < keep_k@.len() implies exists|j: int|
                        0 <= j < i + 1 && #[trigger] seq_views(keep_k@)[t] == #[trigger] ks[j]
                            && seq_views(keep_v@)[t] == pre.val_seq()[j] by {
                        let j = choose|j: int|
                            0 <= j < i && #[trigger] seq_views(keep_k@)[t] == #[trigger] ks[j]
                                && seq_views(keep_v@)[t] == pre.val_seq()[j];
                        assert(0 <= j < i + 1 && seq_views(keep_k@)[t] == ks[j] && seq_views(
                            keep_v@,
                        )[t] == pre.val_seq()[j]);
                    }
                    assert(seq_views(out_k@)[prev_k.len() as int] == ks[gi]);
                    assert(seq_views(out_k@).contains(ks[gi]));
                    assert forall|j: int|
                        0 <= j < i + 1 implies (seq_views(keep_k@).contains(
                        #[trigger] ks[j],
                    ) <==> !seq_views(out_k@).contains(ks[j])) && (seq_views(keep_k@).contains(
                        ks[j],
                    ) || seq_views(out_k@).contains(ks[j])) by {
                        if j < i {
                            if ks[j] == ks[gi] {
                                lemma_sorted_unique(ks, j, gi);
                            }
                            assert forall|t: int|
                                0 <= t < out_k@.len() && #[trigger] seq_views(out_k@)[t] == ks[j]
                                    implies seq_views(prev_k).contains(ks[j]) by {
                                if t < prev_k.len() {
                                    assert(seq_views(prev_k)[t] == ks[j]);
                                }
                            }
                            if seq_views(prev_k).contains(ks[j]) {
                                let t = choose|t: int|
                                    0 <= t < prev_k.len() && #[trigger] seq_views(prev_k)[t]
                                        == ks[j];
                                assert(seq_views(out_k@)[t] == ks[j]);
                            }
                        }
                    }
                    assert(pred_decides(pred, ks[gi], pre.val_seq()[gi], true));
                }
            } else {
                let ghost prev_k = keep_k@;
                let ghost prev_v = keep_v@;
                keep_k.push(kv);
                keep_v.push(vv);
                proof {
                    lemma_seq_views_push(prev_k, gk);
                    lemma_seq_views_push(prev_v, gv);
                    let ks = pre.key_seq();
                    let gi = i as int;
                    lemma_push_sorted(seq_views(prev_k), ks[gi]);
                    assert(seq_views(keep_k@) =~= seq_views(prev_k).push(ks[gi]));
                    assert(seq_views(keep_v@) =~= seq_views(prev_v).push(pre.val_seq()[gi]));
                    assert forall|t: int| 0 <= t < keep_k@.len() implies exists|j: int|
                        0 <= j < i + 1 && #[trigger] seq_views(keep_k@)[t] == #[trigger] ks[j]
                            && seq_views(keep_v@)[t] == pre.val_seq()[j] by {
                        if t < prev_k.len() {
                            let j = choose|j: int|
                                0 <= j < i && #[trigger] seq_views(prev_k)[t] == #[trigger] ks[j]
                                    && seq_views(prev_v)[t] == pre.val_seq()[j];
                            assert(0 <= j < i + 1 && seq_views(keep_k@)[t] == ks[j] && seq_views(
                                keep_v@,
                            )[t] == pre.val_seq()[j]);
                        } else {
                            assert(0 <= gi < i + 1 && seq_views(keep_k@)[t] == ks[gi] && seq_views(
                                keep_v@,
                            )[t] == pre.val_seq()[gi]);
                        }
                    }
                    assert forall|t: int| 0 <= t < out_k@.len() implies exists|j: int|
                        0 <= j < i + 1 && #[trigger] seq_views(out_k@)[t] == #[trigger] ks[j]
                            && seq_views(out_v@)[t] == pre.val_seq()[j] && a <= j < b by {
                        let j = choose|j: int|
                            0 <= j < i && #[trigger] seq_views(out_k@)[t] == #[trigger] ks[j]
                                && seq_views(out_v@)[t] == pre.val_seq()[j] && a <= j < b;
                        assert(0 <= j < i + 1 && seq_views(out_k@)[t] == ks[j] && seq_views(
                            out_v@,
                        )[t] == pre.val_seq()[j] && a <= j < b);
                    }
                    assert(seq_views(keep_k@)[prev_k.len() as int] == ks[gi]);
                    assert(seq_views(keep_k@).contains(ks[gi]));
                    assert forall|j: int|
                        0 <= j < i + 1 implies (seq_views(keep_k@).contains(
                        #[trigger] ks[j],
                    ) <==> !seq_views(out_k@).contains(ks[j])) && (seq_views(keep_k@).contains(
                        ks[j],
                    ) || seq_views(out_k@).contains(ks[j])) by {
                        if j < i {
                            if ks[j] == ks[gi] {
                                lemma_sorted_unique(ks, j, gi);
                            }
                            assert forall|t: int|
                                0 <= t < keep_k@.len() && #[trigger] seq_views(keep_k@)[t] == ks[j]
                                    implies seq_views(prev_k).contains(ks[j]) by {
                                if t < prev_k.len() {
                                    assert(seq_views(prev_k)[t] == ks[j]);
                                }
                            }
                            if seq_views(prev_k).contains(ks[j]) {
                                let t = choose|t: int|
                                    0 <= t < prev_k.len() && #[trigger] seq_views(prev_k)[t]
                                        == ks[j];
                                assert(seq_views(keep_k@)[t] == ks[j]);
                            }
                        }
                    }
                    if a <= i && i < b {
                        assert(pred_decides(pred, ks[gi], pre.val_seq()[gi], false));
                    }
                    assert forall|j: int|
                        0 <= j < i + 1 && a <= j < b && seq_views(keep_k@).contains(
                            #[trigger] ks[j],
                        ) implies pred_decides(pred, ks[j], pre.val_seq()[j], false) by {
                        if j < i {
                            assert forall|t: int|
                                0 <= t < keep_k@.len() && #[trigger] seq_views(keep_k@)[t] == ks[j]
                                    implies seq_views(prev_k).contains(ks[j]) by {
                                if t < prev_k.len() {
                                    assert(seq_views(prev_k)[t] == ks[j]);
                                } else {
                                    lemma_sorted_unique(ks, j, gi);
                                }
                            }
                            let t = choose|t: int|
                                0 <= t < keep_k@.len() && #[trigger] seq_views(keep_k@)[t]
                                    == ks[j];
                            assert(seq_views(prev_k).contains(ks[j]));
                        }
                    }
                }
            }
            i += 1;
        }
        self.keys = keep_k;
        self.values = keep_v;
        proof {
            assert(self.key_seq() =~= seq_views(self.keys@));
            assert(self.val_seq() =~= seq_views(self.values@));
            assert forall|j: int|
                0 <= j < self.len_spec() implies pre.contains_key(#[trigger] self.key_seq()[j])
                && self.val_seq()[j] == pre.spec_value(self.key_seq()[j]) by {
                let t = choose|t: int|
                    0 <= t < pre.len_spec() && #[trigger] seq_views(self.keys@)[j]
                        == pre.key_seq()[t] && seq_views(self.values@)[j] == pre.val_seq()[t];
                assert(pre.contains_key(self.key_seq()[j]));
                pre.lemma_found_at(self.key_seq()[j], t);
            }
            assert forall|t: int|
                0 <= t < out_k@.len() implies pre.contains_key(#[trigger] seq_views(out_k@)[t])
                && seq_views(out_v@)[t] == pre.spec_value(seq_views(out_k@)[t]) && in_range(
                view_opt(lo),
                view_opt(hi),
                seq_views(out_k@)[t],
            ) by {
                let j = choose|j: int|
                    0 <= j < n && #[trigger] seq_views(out_k@)[t] == pre.key_seq()[j] && seq_views(
                        out_v@,
                    )[t] == pre.val_seq()[j] && a <= j < b;
                assert(pre.contains_key(seq_views(out_k@)[t]));
                pre.lemma_found_at(seq_views(out_k@)[t], j);
                lemma_range_membership(pre.key_seq(), view_opt(lo), view_opt(hi), j);
            }
            assert forall|j: int|
                0 <= j < pre.len_spec() && in_range(
                    view_opt(lo),
                    view_opt(hi),
                    #[trigger] pre.key_seq()[j],
                ) implies (a <= j < b) by {
                lemma_range_membership(pre.key_seq(), view_opt(lo), view_opt(hi), j);
            }
            assert forall|j: int|
                0 <= j < pre.len_spec() && !in_range(
                    view_opt(lo),
                    view_opt(hi),
                    #[trigger] pre.key_seq()[j],
                ) implies !(a <= j < b) by {
                lemma_range_membership(pre.key_seq(), view_opt(lo), view_opt(hi), j);
            }
            assert forall|j: int|
                0 <= j < pre.len_spec() implies (self.contains_key(#[trigger] pre.key_seq()[j])
                <==> seq_views(self.keys@).contains(pre.key_seq()[j])) by {}
        }
        (out_k, out_v)
    }
}

/// Pushing a key above every present key keeps a run sorted.
proof fn lemma_push_sorted(s: Seq<Seq<u8>>, x: Seq<u8>)
    requires
        sorted_lex(s),
        forall|t: int| 0 <= t < s.len() ==> lex_lt(#[trigger] s[t], x),
    ensures
        sorted_lex(s.push(x)),
{
    let s2 = s.push(x);
    assert forall|p: int, q: int| 0 <= p < q < s2.len() implies lex_lt(
        #[trigger] s2[p],
        #[trigger] s2[q],
    ) by {
        if q < s.len() {
            assert(lex_lt(s[p], s[q]));
        }
    }
}

/// In a run whose adjacent keys ascend, any earlier key sorts below any
/// later one.
pub proof fn lemma_adjacent_span(ks: Seq<Seq<u8>>, i: int, j: int)
    requires
        forall|t: int| 0 <= t < ks.len() - 1 ==> lex_lt(#[trigger] ks[t], ks[t + 1]),
        0 <= i < j < ks.len(),
    ensures
        lex_lt(ks[i], ks[j]),
    decreases j - i,
{
    if j == i + 1 {
        assert(lex_lt(ks[i], ks[i + 1]));
    } else {
        lemma_adjacent_span(ks, i, j - 1);
        assert(lex_lt(ks[j - 1], ks[j]));
        lemma_lex_transitive(ks[i], ks[j - 1], ks[j]);
    }
}

impl Tree {
    /// Rebuilds a table from slot runs, checking that the keys strictly
    /// ascend. Succeeds exactly on aligned, sorted runs.
    pub fn from_sorted(keys: Vec<Vec<u8>>, values: Vec<Vec<u8>>) -> (r: Option<Tree>)
        ensures
            r matches Some(t) ==> t.wf() && t.key_seq() == seq_views(keys@) && t.val_seq()
                == seq_views(values@),
            (keys@.len() == values@.len() && sorted_lex(seq_views(keys@))) == (r is Some),
    {
        if keys.len() != values.len() {
            return None;
        }
        let ghost kv = seq_views(keys@);
        let n = keys.len();
        let mut i: usize = 0;
        while i + 1 < n
            invariant
                kv == seq_views(keys@),
                n == keys@.len(),
                0 <= i,
                n > 0 ==> i < n,
                n == 0 ==> i == 0,
                forall|t: int| 0 <= t < i ==> lex_lt(#[trigger] kv[t], kv[t + 1]),
            decreases n - i,
        {
            match bytes_cmp(keys[i].as_slice(), keys[i + 1].as_slice()) {
                core::cmp::Ordering::Less => (),
                _ => {
                    proof {
                        if sorted_lex(kv) {
                            assert(lex_lt(kv[i as int], kv[i + 1]));
                        }
                    }
                    return None;
                },
            }
            i += 1;
        }
        proof {
            assert forall|p: int, q: int| 0 <= p < q < kv.len() implies lex_lt(
                #[trigger] kv[p],
                #[trigger] kv[q],
            ) by {
                lemma_adjacent_span(kv, p, q);
            }
            assert(sorted_lex(kv));
        }
        let t = Tree { keys, values };
        proof {
            assert(t.key_seq() =~= kv);
            assert(t.val_seq() =~= seq_views(values@));
        }
        Some(t)
    }
}

impl Tree {
    /// An owned copy of the table, entry by entry.
    pub fn duplicate(&self) -> (r: Tree)
        requires
            self.wf(),
        ensures
            r.wf(),
            r.key_seq() == self.key_seq(),
            r.val_seq() == self.val_seq(),
    {
        let n = self.keys.len();
        let mut ks: Vec<Vec<u8>> = Vec::new();
        let mut vs: Vec<Vec<u8>> = Vec::new();
        let mut i: usize = 0;
        while i < n
            invariant
                self.wf(),
                n == self.len_spec(),
                0 <= i <= n,
                seq_views(ks@) =~= self.key_seq().take(i as int),
                seq_views(vs@) =~= self.val_seq().take(i as int),
            decreases n - i,
        {
            let kv = self.key_at(i);
            let vv = self.value_at(i);
            let ghost pk = ks@;
            let ghost pv = vs@;
            let ghost gk = kv;
            let ghost gv = vv;
            ks.push(kv);
            vs.push(vv);
            proof {
                lemma_seq_views_push(pk, gk);
                lemma_seq_views_push(pv, gv);
                assert(seq_views(ks@) =~= self.key_seq().take(i + 1));
                assert(seq_views(vs@) =~= self.val_seq().take(i + 1));
            }
            i += 1;
        }
        let r = Tree { keys: ks, values: vs };
        proof {
            assert(r.key_seq() =~= seq_views(r.keys@));
            assert(r.val_seq() =~= seq_views(r.values@));
            assert(self.key_seq().take(n as int) =~= self.key_seq());
            assert(self.val_seq().take(n as int) =~= self.val_seq());
        }
        r
    }
}

/// The views of a run of owned byte vectors.
pub open spec fn seq_views(s: Seq<Vec<u8>>) -> Seq<Seq<u8>> {
    Seq::new(s.len(), |i: int| s[i]@)
}

/// Appending a vector appends its view.
pub proof fn lemma_seq_views_push(s: Seq<Vec<u8>>, x: Vec<u8>)
    ensures
        seq_views(s.push(x)) =~= seq_views(s).push(x@),
{
}

} // verus!
