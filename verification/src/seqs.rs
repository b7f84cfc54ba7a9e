use vstd::prelude::*;

verus! {

/// Strict lexicographic order on byte strings: a proper prefix sorts before
/// its extensions, and otherwise the first differing byte decides.
///
/// The tree relies on byte comparison only; encoded keys must admit a total
/// order that this relation realizes.
pub open spec fn lex_lt(a: Seq<u8>, b: Seq<u8>) -> bool
    decreases a.len(),
{
    if b.len() == 0 {
        false
    } else if a.len() == 0 {
        true
    } else if a[0] < b[0] {
        true
    } else if a[0] > b[0] {
        false
    } else {
        lex_lt(a.drop_first(), b.drop_first())
    }
}

/// Two byte strings that agree on their first `i` bytes compare as their
/// suffixes from `i` do.
pub proof fn lemma_lex_skip(a: Seq<u8>, b: Seq<u8>, i: int)
    requires
        0 <= i <= a.len(),
        i <= b.len(),
        forall|j: int| 0 <= j < i ==> a[j] == b[j],
    ensures
        lex_lt(a, b) == lex_lt(a.skip(i), b.skip(i)),
    decreases i,
{
    if i > 0 {
        lemma_lex_skip(a.drop_first(), b.drop_first(), i - 1);
        assert(a.drop_first().skip(i - 1) =~= a.skip(i));
        assert(b.drop_first().skip(i - 1) =~= b.skip(i));
    } else {
        assert(a.skip(0) =~= a);
        assert(b.skip(0) =~= b);
    }
}

/// No byte string sorts before itself.
pub proof fn lemma_lex_irreflexive(a: Seq<u8>)
    ensures
        !lex_lt(a, a),
    decreases a.len(),
{
    if a.len() > 0 {
        lemma_lex_irreflexive(a.drop_first());
    }
}

/// The order is asymmetric, and strictly ordered strings differ.
pub proof fn lemma_lex_asymmetric(a: Seq<u8>, b: Seq<u8>)
    requires
        lex_lt(a, b),
    ensures
        !lex_lt(b, a),
        a != b,
    decreases a.len(),
{
    if a.len() > 0 && b.len() > 0 && a[0] == b[0] {
        lemma_lex_asymmetric(a.drop_first(), b.drop_first());
        assert(a != b) by {
            if a == b {
                assert(a.drop_first() == b.drop_first());
            }
        }
    }
}

/// Two mutually unordered byte strings are equal: the order is total.
pub proof fn lemma_lex_total(a: Seq<u8>, b: Seq<u8>)
    requires
        !lex_lt(a, b),
        !lex_lt(b, a),
    ensures
        a == b,
    decreases a.len(),
{
    if a.len() == 0 {
        assert(b.len() == 0);
        assert(a =~= b);
    } else {
        assert(b.len() > 0);
        assert(a[0] == b[0]);
        lemma_lex_total(a.drop_first(), b.drop_first());
        assert(a =~= b) by {
            assert(forall|j: int|
                1 <= j < a.len() ==> a[j] == a.drop_first()[j - 1] && b[j] == b.drop_first()[j
                    - 1]);
        }
    }
}

/// The order is transitive.
pub proof fn lemma_lex_transitive(a: Seq<u8>, b: Seq<u8>, c: Seq<u8>)
    requires
        lex_lt(a, b),
        lex_lt(b, c),
    ensures
        lex_lt(a, c),
    decreases a.len() + b.len() + c.len(),
{
    if a.len() > 0 && b.len() > 0 && c.len() > 0 {
        if a[0] == b[0] && b[0] == c[0] {
            lemma_lex_transitive(a.drop_first(), b.drop_first(), c.drop_first());
        }
    }
}

/// Index of the first entry of `ks` equal to `k`, or `-1` if none is.
pub open spec fn index_of_first(ks: Seq<Seq<u8>>, k: Seq<u8>) -> int
    decreases ks.len(),
{
    if ks.len() == 0 {
        -1
    } else if ks[0] == k {
        0
    } else {
        let r = index_of_first(ks.drop_first(), k);
        if r < 0 {
            -1
        } else {
            r + 1
        }
    }
}

pub proof fn lemma_index_of_first_bounds(ks: Seq<Seq<u8>>, k: Seq<u8>)
    ensures
        index_of_first(ks, k) >= 0 ==> index_of_first(ks, k) < ks.len() && ks[index_of_first(
            ks,
            k,
        )] == k,
        index_of_first(ks, k) < 0 ==> forall|i: int| 0 <= i < ks.len() ==> ks[i] != k,
    decreases ks.len(),
{
    if ks.len() > 0 && ks[0] != k {
        lemma_index_of_first_bounds(ks.drop_first(), k);
        let r = index_of_first(ks.drop_first(), k);
        if r >= 0 {
            assert(ks.drop_first()[r] == ks[r + 1]);
        } else {
            assert forall|i: int| 0 <= i < ks.len() implies ks[i] != k by {
                if i > 0 {
                    assert(ks.drop_first()[i - 1] == ks[i]);
                }
            }
        }
    }
}

pub proof fn lemma_index_of_first_match(ks: Seq<Seq<u8>>, k: Seq<u8>, i: int)
    requires
        0 <= i < ks.len(),
        ks[i] == k,
        forall|j: int| 0 <= j < i ==> ks[j] != k,
    ensures
        index_of_first(ks, k) == i,
    decreases ks.len(),
{
    if ks[0] != k {
        assert(ks.drop_first()[i - 1] == ks[i]);
        assert forall|j: int| 0 <= j < i - 1 implies ks.drop_first()[j] != k by {
            assert(ks.drop_first()[j] == ks[j + 1]);
        }
        lemma_index_of_first_match(ks.drop_first(), k, i - 1);
    }
}

/// A strictly ascending run of byte-string keys: sorted, hence duplicate-free.
pub open spec fn sorted_lex(ks: Seq<Seq<u8>>) -> bool {
    forall|i: int, j: int| 0 <= i < j < ks.len() ==> lex_lt(#[trigger] ks[i], #[trigger] ks[j])
}

/// Compares two byte strings for equality.
pub fn bytes_eq(a: &[u8], b: &[u8]) -> (r: bool)
    ensures
        r == (a@ == b@),
{
    if a.len() != b.len() {
        return false;
    }
    let mut i: usize = 0;
    while i < a.len()
        invariant
            0 <= i <= a@.len(),
            a@.len() == b@.len(),
            forall|j: int| 0 <= j < i ==> a@[j] == b@[j],
        decreases a@.len() - i,
    {
        if a[i] != b[i] {
            return false;
        }
        i += 1;
    }
    proof {
        assert(a@ =~= b@);
    }
    true
}

/// Three-way comparison of byte strings in lexicographic order.
pub fn bytes_cmp(a: &[u8], b: &[u8]) -> (r: core::cmp::Ordering)
    ensures
        (r == core::cmp::Ordering::Less) == lex_lt(a@, b@),
        (r == core::cmp::Ordering::Greater) == lex_lt(b@, a@),
        (r == core::cmp::Ordering::Equal) == (a@ == b@),
{
    let min: usize = if a.len() < b.len() {
        a.len()
    } else {
        b.len()
    };
    let mut i: usize = 0;
    while i < min
        invariant
            0 <= i <= min,
            min <= a@.len(),
            min <= b@.len(),
            min == if a@.len() < b@.len() {
                a@.len() as int
            } else {
                b@.len() as int
            },
            forall|j: int| 0 <= j < i ==> a@[j] == b@[j],
        decreases min - i,
    {
        if a[i] < b[i] {
            proof {
                lemma_lex_skip(a@, b@, i as int);
                assert(a@.skip(i as int)[0] == a@[i as int]);
                assert(b@.skip(i as int)[0] == b@[i as int]);
                lemma_lex_asymmetric(a@, b@);
            }
            return core::cmp::Ordering::Less;
        }
        if a[i] > b[i] {
            proof {
                lemma_lex_skip(a@, b@, i as int);
                lemma_lex_skip(b@, a@, i as int);
                assert(a@.skip(i as int)[0] == a@[i as int]);
                assert(b@.skip(i as int)[0] == b@[i as int]);
                lemma_lex_asymmetric(b@, a@);
            }
            return core::cmp::Ordering::Greater;
        }
        i += 1;
    }
    proof {
        lemma_lex_skip(a@, b@, min as int);
        lemma_lex_skip(b@, a@, min as int);
    }
    if a.len() < b.len() {
        proof {
            assert(a@.skip(min as int).len() == 0);
            assert(b@.skip(min as int).len() > 0);
            lemma_lex_asymmetric(a@, b@);
        }
        core::cmp::Ordering::Less
    } else if a.len() > b.len() {
        proof {
            assert(b@.skip(min as int).len() == 0);
            assert(a@.skip(min as int).len() > 0);
            lemma_lex_asymmetric(b@, a@);
        }
        core::cmp::Ordering::Greater
    } else {
        proof {
            assert(a@ =~= b@);
            lemma_lex_irreflexive(a@);
        }
        core::cmp::Ordering::Equal
    }
}

/// Copies a byte slice into an owned vector.
pub fn to_vec_bytes(data: &[u8]) -> (r: Vec<u8>)
    ensures
        r@ == data@,
{
    vstd::slice::slice_to_vec(data)
}

} // verus!
