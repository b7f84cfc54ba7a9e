use vstd::prelude::*;

use crate::seqs::{lemma_lex_asymmetric, lex_lt, sorted_lex};
use crate::state::{def_matches, index_of_def, Catalog};
use crate::table::Range;
use crate::tree::{rank, Tree};
use vstd::map::*;

verus! {

/// Round-trip: writing a binding updates the table's map by exactly that
/// binding, so a later lookup under the key yields the written value. The
/// two hypotheses are `Tree::insert`'s postconditions for the present and
/// absent cases.
pub proof fn lemma_insert_round_trip(t: Tree, u: Tree, key: Seq<u8>, value: Seq<u8>)
    requires
        t.wf(),
        u.wf(),
        t.contains_key(key) ==> u.key_seq() == t.key_seq() && u.val_seq() == t.val_seq().update(
            t.key_index(key),
            value,
        ),
        !t.contains_key(key) ==> u.key_seq() == t.key_seq().insert(rank(t.key_seq(), key), key)
            && u.val_seq() == t.val_seq().insert(rank(t.key_seq(), key), value),
    ensures
        u.as_map() == t.as_map().insert(key, value),
        u.as_map()[key] == value,
{
    crate::tree::lemma_rank_props(t.key_seq(), key);
    let p = if t.contains_key(key) {
        t.key_index(key)
    } else {
        rank(t.key_seq(), key)
    };
    if t.contains_key(key) {
        crate::tree::lemma_sorted_unique(t.key_seq(), t.key_index(key), t.key_index(key));
    }
    assert forall|k: Seq<u8>| true implies #[trigger] u.contains_key(k) == (t.contains_key(k) || k
        == key) by {
        lemma_membership_shift(t, u, key, p, k);
    }
    assert forall|k: Seq<u8>| u.contains_key(k) implies #[trigger] u.spec_value(k) == (if k == key {
        value
    } else {
        t.spec_value(k)
    }) by {
        lemma_value_shift(t, u, key, value, p, k);
    }
    assert(u.as_map() =~= t.as_map().insert(key, value));
}

/// Idempotent removal: removing a key removes exactly that binding from the
/// table's map, afterward the key is absent, so removing it again changes
/// nothing and returns nothing. The hypothesis is `Tree::remove`'s
/// postcondition for the present case.
pub proof fn lemma_remove_idempotent(t: Tree, u: Tree, key: Seq<u8>)
    requires
        t.wf(),
        u.wf(),
        t.contains_key(key),
        u.key_seq() == t.key_seq().remove(t.key_index(key)),
        u.val_seq() == t.val_seq().remove(t.key_index(key)),
    ensures
        u.as_map() == t.as_map().remove(key),
        !u.contains_key(key),
        u.as_map().remove(key) == u.as_map(),
{
    let p = t.key_index(key);
    assert(0 <= p < t.key_seq().len() && t.key_seq()[p] == key);
    assert forall|k: Seq<u8>| true implies #[trigger] u.contains_key(k) == (t.contains_key(k) && k
        != key) by {
        lemma_membership_unshift(t, u, key, p, k);
    }
    assert forall|k: Seq<u8>| u.contains_key(k) implies #[trigger] u.spec_value(k) == t.spec_value(
        k,
    ) by {
        lemma_value_unshift(t, u, key, p, k);
    }
    assert(u.as_map() =~= t.as_map().remove(key));
    assert(u.as_map().remove(key) =~= u.as_map());
}

/// Ordered iteration: a cursor's pending keys ascend strictly in byte
/// order, so `next` yields keys in ascending order and `next_back` yields
/// them in descending order.
pub proof fn lemma_iteration_ordered(r: Range)
    requires
        r.wf(),
    ensures
        sorted_lex(r.remaining_keys()),
        forall|i: int, j: int|
            0 <= i < j < r.remaining_keys().len() ==> !lex_lt(
                #[trigger] r.remaining_keys()[j],
                #[trigger] r.remaining_keys()[i],
            ),
{
    assert forall|i: int, j: int| 0 <= i < j < r.remaining_keys().len() implies lex_lt(
        #[trigger] r.remaining_keys()[i],
        #[trigger] r.remaining_keys()[j],
    ) by {
        assert(r.remaining_keys()[i] == r.all_keys()[r.front_spec() + i]);
        assert(r.remaining_keys()[j] == r.all_keys()[r.front_spec() + j]);
    }
    assert forall|i: int, j: int| 0 <= i < j < r.remaining_keys().len() implies !lex_lt(
        #[trigger] r.remaining_keys()[j],
        #[trigger] r.remaining_keys()[i],
    ) by {
        lemma_lex_asymmetric(r.remaining_keys()[i], r.remaining_keys()[j]);
    }
}

/// Snapshot isolation: what a reader observes is a function of the catalog
/// snapshot pinned at begin alone. Catalogs whose tables carry the same
/// data resolve every table lookup to the same data, so a commit that
/// replaces the store's catalog never changes what an existing snapshot
/// observes.
pub proof fn lemma_snapshot_determines_reads(a: Catalog, b: Catalog, name: Seq<u8>, system: bool)
    requires
        a.defs().len() == b.defs().len(),
        forall|i: int| 0 <= i < a.defs().len() ==> def_matches(#[trigger] a.defs()[i], b.defs()[i]),
    ensures
        index_of_def(a.defs(), name, system) == index_of_def(b.defs(), name, system),
        ({
            let i = index_of_def(a.defs(), name, system);
            i >= 0 ==> a.defs()[i].key_fingerprint == b.defs()[i].key_fingerprint
                && a.defs()[i].value_fingerprint == b.defs()[i].value_fingerprint
                && a.defs()[i].tree.key_seq() == b.defs()[i].tree.key_seq()
                && a.defs()[i].tree.val_seq() == b.defs()[i].tree.val_seq()
        }),
{
    lemma_index_of_def_congruence(a.defs(), b.defs(), name, system);
    let i = index_of_def(a.defs(), name, system);
    if i >= 0 {
        crate::state::lemma_index_of_def_bounds(a.defs(), name, system);
        assert(def_matches(a.defs()[i], b.defs()[i]));
    }
}

proof fn lemma_index_of_def_congruence(
    da: Seq<crate::state::TableDef>,
    db_defs: Seq<crate::state::TableDef>,
    name: Seq<u8>,
    system: bool,
)
    requires
        da.len() == db_defs.len(),
        forall|i: int| 0 <= i < da.len() ==> def_matches(#[trigger] da[i], db_defs[i]),
    ensures
        index_of_def(da, name, system) == index_of_def(db_defs, name, system),
    decreases da.len(),
{
    if da.len() > 0 {
        assert(def_matches(da[0], db_defs[0]));
        assert forall|i: int|
            0 <= i < da.drop_first().len() implies def_matches(
            #[trigger] da.drop_first()[i],
            db_defs.drop_first()[i],
        ) by {
            assert(da.drop_first()[i] == da[i + 1]);
            assert(db_defs.drop_first()[i] == db_defs[i + 1]);
        }
        lemma_index_of_def_congruence(da.drop_first(), db_defs.drop_first(), name, system);
    }
}

proof fn lemma_membership_shift(t: Tree, u: Tree, key: Seq<u8>, p: int, k: Seq<u8>)
    requires
        t.wf(),
        u.wf(),
        0 <= p <= t.key_seq().len(),
        if t.contains_key(key) {
            u.key_seq() == t.key_seq() && p == t.key_index(key) && p < t.key_seq().len()
                && t.key_seq()[p] == key
        } else {
            u.key_seq() == t.key_seq().insert(p, key)
        },
    ensures
        u.contains_key(k) == (t.contains_key(k) || k == key),
{
    let ks = t.key_seq();
    if t.contains_key(key) {
        assert(u.contains_key(key));
    } else {
        let us = u.key_seq();
        assert(us[p] == key);
        if t.contains_key(k) {
            let i = choose|i: int| 0 <= i < ks.len() && ks[i] == k;
            if i < p {
                assert(us[i] == k);
            } else {
                assert(us[i + 1] == k);
            }
        }
        if u.contains_key(k) && k != key {
            let i = choose|i: int| 0 <= i < us.len() && us[i] == k;
            if i < p {
                assert(ks[i] == k);
            } else if i == p {
                assert(false);
            } else {
                assert(ks[i - 1] == k);
            }
        }
    }
}

proof fn lemma_value_shift(t: Tree, u: Tree, key: Seq<u8>, value: Seq<u8>, p: int, k: Seq<u8>)
    requires
        t.wf(),
        u.wf(),
        u.contains_key(k),
        0 <= p <= t.key_seq().len(),
        t.key_seq().len() == t.val_seq().len(),
        if t.contains_key(key) {
            u.key_seq() == t.key_seq() && p == t.key_index(key) && p < t.key_seq().len()
                && t.key_seq()[p] == key && u.val_seq() == t.val_seq().update(p, value)
        } else {
            u.key_seq() == t.key_seq().insert(p, key) && u.val_seq() == t.val_seq().insert(
                p,
                value,
            )
        },
    ensures
        u.spec_value(k) == (if k == key {
            value
        } else {
            t.spec_value(k)
        }),
{
    let ks = t.key_seq();
    let us = u.key_seq();
    let i = u.key_index(k);
    assert(0 <= i < us.len() && us[i] == k);
    if t.contains_key(key) {
        if k == key {
            crate::tree::lemma_sorted_unique(us, i, p);
        } else {
            assert(ks[i] == k);
            crate::tree::lemma_sorted_unique(ks, t.key_index(k), i);
        }
    } else {
        if k == key {
            crate::tree::lemma_sorted_unique(us, i, p);
            assert(u.val_seq()[p] == value);
        } else {
            if i < p {
                assert(ks[i] == k && u.val_seq()[i] == t.val_seq()[i]);
                crate::tree::lemma_sorted_unique(ks, t.key_index(k), i);
            } else if i == p {
                assert(false);
            } else {
                assert(ks[i - 1] == k && u.val_seq()[i] == t.val_seq()[i - 1]);
                crate::tree::lemma_sorted_unique(ks, t.key_index(k), i - 1);
            }
        }
    }
}

proof fn lemma_membership_unshift(t: Tree, u: Tree, key: Seq<u8>, p: int, k: Seq<u8>)
    requires
        t.wf(),
        u.wf(),
        0 <= p < t.key_seq().len(),
        t.key_seq()[p] == key,
        u.key_seq() == t.key_seq().remove(p),
    ensures
        u.contains_key(k) == (t.contains_key(k) && k != key),
{
    let ks = t.key_seq();
    let us = u.key_seq();
    if u.contains_key(k) {
        let i = choose|i: int| 0 <= i < us.len() && us[i] == k;
        if i < p {
            assert(ks[i] == k);
            if k == key {
                crate::tree::lemma_sorted_unique(ks, i, p);
            }
        } else {
            assert(ks[i + 1] == k);
            if k == key {
                crate::tree::lemma_sorted_unique(ks, i + 1, p);
            }
        }
    }
    if t.contains_key(k) && k != key {
        let i = choose|i: int| 0 <= i < ks.len() && ks[i] == k;
        assert(i != p);
        if i < p {
            assert(us[i] == k);
        } else {
            assert(us[i - 1] == k);
        }
    }
}

proof fn lemma_value_unshift(t: Tree, u: Tree, key: Seq<u8>, p: int, k: Seq<u8>)
    requires
        t.wf(),
        u.wf(),
        u.contains_key(k),
        0 <= p < t.key_seq().len(),
        t.key_seq().len() == t.val_seq().len(),
        t.key_seq()[p] == key,
        u.key_seq() == t.key_seq().remove(p),
        u.val_seq() == t.val_seq().remove(p),
    ensures
        u.spec_value(k) == t.spec_value(k),
{
    let ks = t.key_seq();
    let us = u.key_seq();
    let i = u.key_index(k);
    assert(0 <= i < us.len() && us[i] == k);
    if i < p {
        assert(ks[i] == k && u.val_seq()[i] == t.val_seq()[i]);
        crate::tree::lemma_sorted_unique(ks, t.key_index(k), i);
    } else {
        assert(ks[i + 1] == k && u.val_seq()[i] == t.val_seq()[i + 1]);
        crate::tree::lemma_sorted_unique(ks, t.key_index(k), i + 1);
    }
}

} // verus!
