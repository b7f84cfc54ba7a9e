use vstd::prelude::*;

use crate::bytes::{
    decode_byte_list, encode_byte_list, encode_list_spec, lemma_u64_le_roundtrip, list_encodable,
    push_u64_le, read_u64_le, u64_le, u64_from_le,
};
use crate::seqs::{bytes_eq, to_vec_bytes};
use crate::tree::{lemma_seq_views_push, seq_views, Tree};

verus! {

/// One table of the catalog: its name, namespace flag, the fingerprints of
/// the codec pair it was created with, and its tree.
pub struct TableDef {
    pub name: Vec<u8>,
    pub system: bool,
    pub key_fingerprint: u64,
    pub value_fingerprint: u64,
    pub tree: Tree,
}

/// Whether two table definitions carry the same data.
pub open spec fn def_matches(a: TableDef, b: TableDef) -> bool {
    &&& a.name@ == b.name@
    &&& a.system == b.system
    &&& a.key_fingerprint == b.key_fingerprint
    &&& a.value_fingerprint == b.value_fingerprint
    &&& a.tree.key_seq() == b.tree.key_seq()
    &&& a.tree.val_seq() == b.tree.val_seq()
}

/// The master catalog: every table of the store, each name-and-namespace
/// pair held at most once.
pub struct Catalog {
    pub tables: Vec<TableDef>,
}

impl Catalog {
    pub open spec fn defs(&self) -> Seq<TableDef> {
        self.tables@
    }

    pub open spec fn wf(&self) -> bool {
        &&& forall|i: int| 0 <= i < self.defs().len() ==> (#[trigger] self.defs()[i]).tree.wf()
        &&& forall|i: int, j: int|
            0 <= i < j < self.defs().len() ==> !((#[trigger] self.defs()[i]).name@ == (
            #[trigger] self.defs()[j]).name@ && self.defs()[i].system == self.defs()[j].system)
    }

    /// The empty catalog.
    pub fn new() -> (r: Catalog)
        ensures
            r.wf(),
            r.defs().len() == 0,
    {
        Catalog { tables: Vec::new() }
    }

    /// Whether two catalogs carry the same tables.
    pub open spec fn matches(&self, other: &Catalog) -> bool {
        &&& self.defs().len() == other.defs().len()
        &&& forall|i: int|
            0 <= i < self.defs().len() ==> def_matches(
                #[trigger] self.defs()[i],
                other.defs()[i],
            )
    }
}

/// Index of the first table of `ds` stored under `name` in the `system`
/// namespace, or `-1` if none is.
pub open spec fn index_of_def(ds: Seq<TableDef>, name: Seq<u8>, system: bool) -> int
    decreases ds.len(),
{
    if ds.len() == 0 {
        -1
    } else if ds[0].name@ == name && ds[0].system == system {
        0
    } else {
        let r = index_of_def(ds.drop_first(), name, system);
        if r < 0 {
            -1
        } else {
            r + 1
        }
    }
}

pub proof fn lemma_index_of_def_bounds(ds: Seq<TableDef>, name: Seq<u8>, system: bool)
    ensures
        index_of_def(ds, name, system) >= 0 ==> index_of_def(ds, name, system) < ds.len() && ds[
            index_of_def(ds, name, system)].name@ == name && ds[index_of_def(
            ds,
            name,
            system,
        )].system == system,
        index_of_def(ds, name, system) < 0 ==> forall|i: int|
            0 <= i < ds.len() ==> !((#[trigger] ds[i]).name@ == name && ds[i].system == system),
    decreases ds.len(),
{
    if ds.len() > 0 && !(ds[0].name@ == name && ds[0].system == system) {
        lemma_index_of_def_bounds(ds.drop_first(), name, system);
        let r = index_of_def(ds.drop_first(), name, system);
        if r >= 0 {
            assert(ds.drop_first()[r] == ds[r + 1]);
        } else {
            assert forall|i: int|
                0 <= i < ds.len() implies !((#[trigger] ds[i]).name@ == name && ds[i].system
                == system) by {
                if i > 0 {
                    assert(ds.drop_first()[i - 1] == ds[i]);
                }
            }
        }
    }
}

pub proof fn lemma_index_of_def_match(ds: Seq<TableDef>, name: Seq<u8>, system: bool, i: int)
    requires
        0 <= i < ds.len(),
        ds[i].name@ == name,
        ds[i].system == system,
        forall|j: int| 0 <= j < i ==> !((#[trigger] ds[j]).name@ == name && ds[j].system == system),
    ensures
        index_of_def(ds, name, system) == i,
    decreases ds.len(),
{
    if !(ds[0].name@ == name && ds[0].system == system) {
        assert(ds.drop_first()[i - 1] == ds[i]);
        assert forall|j: int|
            0 <= j < i - 1 implies !((#[trigger] ds.drop_first()[j]).name@ == name
            && ds.drop_first()[j].system == system) by {
            assert(ds.drop_first()[j] == ds[j + 1]);
        }
        lemma_index_of_def_match(ds.drop_first(), name, system, i - 1);
    }
}

impl Catalog {
    /// Position of the table stored under `name` in the `system` namespace.
    pub fn find(&self, name: &[u8], system: bool) -> (r: Option<usize>)
        ensures
            r matches Some(i) ==> i < self.defs().len() && index_of_def(
                self.defs(),
                name@,
                system,
            ) == i,
            r is None ==> index_of_def(self.defs(), name@, system) < 0,
    {
        let mut i: usize = 0;
        while i < self.tables.len()
            invariant
                0 <= i <= self.defs().len(),
                forall|j: int|
                    0 <= j < i ==> !((#[trigger] self.defs()[j]).name@ == name@
                        && self.defs()[j].system == system),
            decreases self.defs().len() - i,
        {
            if self.tables[i].system == system && bytes_eq(
                self.tables[i].name.as_slice(),
                name,
            ) {
                proof {
                    lemma_index_of_def_match(self.defs(), name@, system, i as int);
                }
                return Some(i);
            }
            i += 1;
        }
        proof {
            lemma_index_of_def_bounds(self.defs(), name@, system);
            if index_of_def(self.defs(), name@, system) >= 0 {
                assert(false);
            }
        }
        None
    }

    /// Removes and returns the table at `i`.
    pub fn take_def(&mut self, i: usize) -> (r: TableDef)
        requires
            i < old(self).defs().len(),
        ensures
            r == old(self).defs()[i as int],
            final(self).defs() == old(self).defs().remove(i as int),
    {
        self.tables.remove(i)
    }

    /// Stores `d`, superseding the table of the same name and namespace if
    /// one is present.
    pub fn upsert(&mut self, d: TableDef)
        requires
            old(self).wf(),
            d.tree.wf(),
        ensures
            final(self).wf(),
            ({
                let ds = old(self).defs();
                let i = index_of_def(ds, d.name@, d.system);
                if i >= 0 {
                    final(self).defs() == ds.remove(i).push(d)
                } else {
                    final(self).defs() == ds.push(d)
                }
            }),
    {
        let ghost pre = *self;
        let found = self.find(d.name.as_slice(), d.system);
        match found {
            Some(i) => {
                self.tables.remove(i);
                proof {
                    lemma_index_of_def_bounds(pre.defs(), d.name@, d.system);
                }
            },
            None => {
                proof {
                    lemma_index_of_def_bounds(pre.defs(), d.name@, d.system);
                }
            },
        }
        let ghost mid = self.tables@;
        let ghost gd = d;
        self.tables.push(d);
        proof {
            let ds = pre.defs();
            let i = index_of_def(ds, gd.name@, gd.system);
            assert forall|x: int, y: int|
                0 <= x < y < self.defs().len() implies !((#[trigger] self.defs()[x]).name@ == (
            #[trigger] self.defs()[y]).name@ && self.defs()[x].system == self.defs()[y].system)
                by {
                let last = self.defs().len() - 1;
                if y < last {
                    if i >= 0 {
                        let ox = if x < i {
                            x
                        } else {
                            x + 1
                        };
                        let oy = if y < i {
                            y
                        } else {
                            y + 1
                        };
                        assert(self.defs()[x] == ds[ox] && self.defs()[y] == ds[oy]);
                    } else {
                        assert(self.defs()[x] == ds[x] && self.defs()[y] == ds[y]);
                    }
                } else {
                    // the pushed entry against an earlier one
                    assert(self.defs()[y] == gd);
                    if i >= 0 {
                        let ox = if x < i {
                            x
                        } else {
                            x + 1
                        };
                        assert(self.defs()[x] == ds[ox]);
                        if ds[ox].name@ == gd.name@ && ds[ox].system == gd.system {
                            lemma_index_of_def_bounds(ds, gd.name@, gd.system);
                            if ox < i {
                                lemma_index_of_def_match(ds, gd.name@, gd.system, ox);
                            }
                        }
                    } else {
                        assert(self.defs()[x] == ds[x]);
                        lemma_index_of_def_bounds(ds, gd.name@, gd.system);
                    }
                }
            }
            assert forall|t: int|
                0 <= t < self.defs().len() implies (#[trigger] self.defs()[t]).tree.wf() by {
                let last = self.defs().len() - 1;
                if t < last {
                    if i >= 0 {
                        let ot = if t < i {
                            t
                        } else {
                            t + 1
                        };
                        assert(self.defs()[t] == ds[ot]);
                    } else {
                        assert(self.defs()[t] == ds[t]);
                    }
                }
            }
        }
    }

    /// An owned copy of the catalog, table by table.
    pub fn duplicate(&self) -> (r: Catalog)
        requires
            self.wf(),
        ensures
            r.wf(),
            r.matches(self),
            self.matches(&r),
    {
        let mut out: Vec<TableDef> = Vec::new();
        let mut i: usize = 0;
        while i < self.tables.len()
            invariant
                self.wf(),
                0 <= i <= self.defs().len(),
                out@.len() == i,
                forall|t: int| 0 <= t < i ==> def_matches(#[trigger] out@[t], self.defs()[t]),
                forall|t: int| 0 <= t < i ==> (#[trigger] out@[t]).tree.wf(),
            decreases self.defs().len() - i,
        {
            let d = &self.tables[i];
            proof {
                assert(self.defs()[i as int].tree.wf());
            }
            let copy = TableDef {
                name: to_vec_bytes(d.name.as_slice()),
                system: d.system,
                key_fingerprint: d.key_fingerprint,
                value_fingerprint: d.value_fingerprint,
                tree: d.tree.duplicate(),
            };
            out.push(copy);
            i += 1;
        }
        let r = Catalog { tables: out };
        proof {
            assert forall|x: int, y: int|
                0 <= x < y < r.defs().len() implies !((#[trigger] r.defs()[x]).name@ == (
            #[trigger] r.defs()[y]).name@ && r.defs()[x].system == r.defs()[y].system) by {
                assert(def_matches(r.defs()[x], self.defs()[x]));
                assert(def_matches(r.defs()[y], self.defs()[y]));
            }
        }
        r
    }
}

/// The header record of one table: namespace flag, the two fingerprints, the
/// entry count, then the name.
pub open spec fn spec_header(d: TableDef) -> Seq<u8> {
    seq![
        if d.system {
            1u8
        } else {
            0u8
        },
    ] + u64_le(d.key_fingerprint) + u64_le(d.value_fingerprint) + u64_le(
        d.tree.len_spec() as u64,
    ) + d.name@
}

/// Keys and values of one table, alternating.
pub open spec fn interleave(ks: Seq<Seq<u8>>, vs: Seq<Seq<u8>>) -> Seq<Seq<u8>> {
    Seq::new(
        2 * ks.len(),
        |i: int|
            if i % 2 == 0 {
                ks[i / 2]
            } else {
                vs[i / 2]
            },
    )
}

/// The records of one table: its header, then its entries.
pub open spec fn table_records(d: TableDef) -> Seq<Seq<u8>> {
    seq![spec_header(d)] + interleave(d.tree.key_seq(), d.tree.val_seq())
}

/// The records of a run of tables, in order.
pub open spec fn recs_of(ds: Seq<TableDef>) -> Seq<Seq<u8>>
    decreases ds.len(),
{
    if ds.len() == 0 {
        Seq::empty()
    } else {
        table_records(ds.first()) + recs_of(ds.drop_first())
    }
}

/// The catalog on the wire: its records as a byte list.
pub open spec fn spec_encode_catalog(c: Catalog) -> Seq<u8> {
    encode_list_spec(recs_of(c.defs()))
}

pub proof fn lemma_recs_of_snoc(ds: Seq<TableDef>, i: int)
    requires
        0 <= i < ds.len(),
    ensures
        recs_of(ds.take(i + 1)) == recs_of(ds.take(i)) + table_records(ds[i]),
    decreases i,
{
    if i == 0 {
        assert(ds.take(1).first() == ds[0]);
        assert(ds.take(1).drop_first() =~= Seq::<TableDef>::empty());
        assert(ds.take(0) =~= Seq::<TableDef>::empty());
        assert(recs_of(Seq::<TableDef>::empty()) =~= Seq::<Seq<u8>>::empty());
        assert(recs_of(ds.take(1)) =~= table_records(ds[0]));
        assert(recs_of(ds.take(0)) + table_records(ds[0]) =~= table_records(ds[0]));
    } else {
        lemma_recs_of_snoc(ds.drop_first(), i - 1);
        assert(ds.take(i + 1).first() == ds[0]);
        assert(ds.take(i + 1).drop_first() =~= ds.drop_first().take(i));
        assert(ds.take(i).first() == ds[0]);
        assert(ds.take(i).drop_first() =~= ds.drop_first().take(i - 1));
        assert(ds.drop_first()[i - 1] == ds[i]);
        assert(recs_of(ds.take(i + 1)) =~= table_records(ds[0]) + recs_of(ds.drop_first().take(i)));
        assert(recs_of(ds.take(i)) + table_records(ds[i]) =~= table_records(ds[0]) + (recs_of(
            ds.drop_first().take(i - 1),
        ) + table_records(ds.drop_first()[i - 1])));
    }
}

pub proof fn lemma_recs_of_skip(ds: Seq<TableDef>, i: int)
    requires
        0 <= i < ds.len(),
    ensures
        recs_of(ds.skip(i)) == table_records(ds[i]) + recs_of(ds.skip(i + 1)),
{
    assert(ds.skip(i).len() > 0);
    assert(ds.skip(i).first() == ds[i]);
    assert(ds.skip(i).drop_first() =~= ds.skip(i + 1));
}

/// Serializes the catalog.
pub fn encode_catalog(c: &Catalog) -> (r: Vec<u8>)
    requires
        c.wf(),
    ensures
        r@ == spec_encode_catalog(*c),
        list_encodable(recs_of(c.defs())),
{
    let ghost ds = c.tables@;
    let mut records: Vec<Vec<u8>> = Vec::new();
    let mut i: usize = 0;
    while i < c.tables.len()
        invariant
            c.wf(),
            ds == c.tables@,
            0 <= i <= ds.len(),
            seq_views(records@) == recs_of(ds.take(i as int)),
        decreases ds.len() - i,
    {
        let d = &c.tables[i];
        let mut header: Vec<u8> = Vec::new();
        header.push(
            if d.system {
                1u8
            } else {
                0u8
            },
        );
        push_u64_le(&mut header, d.key_fingerprint);
        push_u64_le(&mut header, d.value_fingerprint);
        push_u64_le(&mut header, d.tree.len() as u64);
        header.extend_from_slice(d.name.as_slice());
        proof {
            assert(header@ =~= spec_header(ds[i as int]));
        }
        let ghost pre_recs = records@;
        let ghost gh = header;
        records.push(header);
        proof {
            lemma_seq_views_push(pre_recs, gh);
        }
        proof {
            assert(c.defs()[i as int].tree.wf());
        }
        let n = d.tree.len();
        let mut j: usize = 0;
        while j < n
            invariant
                c.wf(),
                ds == c.tables@,
                0 <= i < ds.len(),
                *d == ds[i as int],
                d.tree.wf(),
                n == d.tree.len_spec(),
                0 <= j <= n,
                seq_views(records@) == recs_of(ds.take(i as int)) + seq![spec_header(ds[i as int])]
                    + interleave(d.tree.key_seq(), d.tree.val_seq()).take(2 * j as int),
            decreases n - j,
        {
            let kv = d.tree.key_at(j);
            let vv = d.tree.value_at(j);
            let ghost gk = kv;
            let ghost gv = vv;
            let ghost prev = records@;
            records.push(kv);
            let ghost mid = records@;
            records.push(vv);
            proof {
                lemma_seq_views_push(prev, gk);
                lemma_seq_views_push(mid, gv);
                let gj = j as int;
                let il = interleave(d.tree.key_seq(), d.tree.val_seq());
                assert((2 * gj) % 2 == 0 && (2 * gj) / 2 == gj);
                assert((2 * gj + 1) % 2 == 1 && (2 * gj + 1) / 2 == gj);
                assert(il[2 * gj] == d.tree.key_seq()[gj]);
                assert(il[2 * gj + 1] == d.tree.val_seq()[gj]);
                assert(il.take(2 * gj + 2) =~= il.take(2 * gj).push(il[2 * gj]).push(
                    il[2 * gj + 1],
                ));
                assert(seq_views(records@) =~= recs_of(ds.take(i as int)) + seq![
                    spec_header(ds[i as int]),
                ] + il.take(2 * gj + 2));
            }
            j += 1;
        }
        proof {
            let il = interleave(d.tree.key_seq(), d.tree.val_seq());
            assert(il.take(2 * n as int) =~= il);
            lemma_recs_of_snoc(ds, i as int);
            assert(seq_views(records@) =~= recs_of(ds.take(i + 1)));
        }
        i += 1;
    }
    proof {
        assert(ds.take(ds.len() as int) =~= ds);
    }
    encode_byte_list(&records)
}

/// Parses the record run into table definitions. Complete on well-formed
/// encodings: whenever `bv` is the encoding of a well-formed, encodable
/// catalog whose records these are, the parse succeeds with exactly that
/// catalog's tables.
#[verifier::rlimit(100)]
fn parse_tables(records: &Vec<Vec<u8>>, Ghost(bv): Ghost<Seq<u8>>) -> (r: Option<Vec<TableDef>>)
    requires
        forall|c: Catalog|
            c.wf() && list_encodable(recs_of(c.defs())) && bv == #[trigger] spec_encode_catalog(c)
                ==> seq_views(records@) == recs_of(c.defs()),
    ensures
        r matches Some(out) ==> forall|t: int|
            0 <= t < out@.len() ==> (#[trigger] out@[t]).tree.wf(),
        forall|c: Catalog|
            c.wf() && list_encodable(recs_of(c.defs())) && bv == #[trigger] spec_encode_catalog(c)
                ==> (r matches Some(out) && out@.len() == c.defs().len() && (forall|t: int|
                0 <= t < out@.len() ==> def_matches(#[trigger] out@[t], c.defs()[t]))),
{
    let ghost rv = seq_views(records@);
    let total = records.len();
    let mut out: Vec<TableDef> = Vec::new();
    let mut idx: usize = 0;
    proof {
        assert forall|c: Catalog|
            c.wf() && list_encodable(recs_of(c.defs())) && bv == #[trigger] spec_encode_catalog(c)
                implies rv.skip(0) == recs_of(c.defs().skip(0)) by {
            assert(seq_views(records@) == recs_of(c.defs()));
            assert(rv.skip(0) =~= rv);
            assert(c.defs().skip(0) =~= c.defs());
        }
    }
    while idx < total
        invariant
            rv == seq_views(records@),
            total == records@.len(),
            0 <= idx <= total,
            forall|t: int| 0 <= t < out@.len() ==> (#[trigger] out@[t]).tree.wf(),
            forall|c: Catalog|
                c.wf() && list_encodable(recs_of(c.defs())) && bv == #[trigger] spec_encode_catalog(
                    c,
                ) ==> {
                    &&& out@.len() <= c.defs().len()
                    &&& forall|t: int|
                        0 <= t < out@.len() ==> def_matches(#[trigger] out@[t], c.defs()[t])
                    &&& rv.skip(idx as int) == recs_of(c.defs().skip(out@.len() as int))
                },
        decreases total - idx,
    {
        let header: &Vec<u8> = &records[idx];
        proof {
            assert forall|c: Catalog|
                c.wf() && list_encodable(recs_of(c.defs())) && bv == #[trigger] spec_encode_catalog(
                    c,
                ) implies out@.len() < c.defs().len() && rv[idx as int] == spec_header(
                c.defs()[out@.len() as int],
            ) by {
                let i = out@.len() as int;
                if i >= c.defs().len() {
                    assert(c.defs().skip(i) =~= Seq::<TableDef>::empty());
                    assert(rv.skip(idx as int).len() == 0);
                }
                lemma_recs_of_skip(c.defs(), i);
                assert(rv[idx as int] == rv.skip(idx as int)[0]);
            }
        }
        if header.len() < 25 {
            proof {
                assert forall|c: Catalog|
                    c.wf() && list_encodable(recs_of(c.defs())) && bv
                        == #[trigger] spec_encode_catalog(c) implies false by {
                    assert(spec_header(c.defs()[out@.len() as int]).len() >= 25);
                }
            }
            return None;
        }
        let sys_byte = header[0];
        if sys_byte > 1 {
            proof {
                assert forall|c: Catalog|
                    c.wf() && list_encodable(recs_of(c.defs())) && bv
                        == #[trigger] spec_encode_catalog(c) implies false by {
                    assert(spec_header(c.defs()[out@.len() as int])[0] == 0u8 || spec_header(
                        c.defs()[out@.len() as int],
                    )[0] == 1u8);
                }
            }
            return None;
        }
        let system = sys_byte == 1;
        let kfp = read_u64_le(header.as_slice(), 1);
        let vfp = read_u64_le(header.as_slice(), 9);
        let count = read_u64_le(header.as_slice(), 17);
        let name = to_vec_bytes(&header.as_slice()[25..header.len()]);
        let remaining = total - idx - 1;
        if count > (remaining / 2) as u64 {
            proof {
                assert forall|c: Catalog|
                    c.wf() && list_encodable(recs_of(c.defs())) && bv
                        == #[trigger] spec_encode_catalog(c) implies false by {
                    let i = out@.len() as int;
                    let d = c.defs()[i];
                    lemma_recs_of_skip(c.defs(), i);
                    lemma_header_fields(rv[idx as int], d);
                    assert(count == d.tree.len_spec());
                    assert(rv.skip(idx as int).len() >= 1 + 2 * d.tree.len_spec());
                }
            }
            return None;
        }
        let cnt = count as usize;
        let mut keys: Vec<Vec<u8>> = Vec::new();
        let mut vals: Vec<Vec<u8>> = Vec::new();
        let mut j: usize = 0;
        while j < cnt
            invariant
                rv == seq_views(records@),
                total == records@.len(),
                0 <= j <= cnt,
                idx + 1 + 2 * cnt <= total,
                keys@.len() == j,
                vals@.len() == j,
                forall|t: int|
                    0 <= t < j ==> (#[trigger] keys@[t])@ == rv[idx + 1 + 2 * t]
                        && vals@[t]@ == rv[idx + 2 + 2 * t],
            decreases cnt - j,
        {
            let kk = to_vec_bytes(records[idx + 1 + 2 * j].as_slice());
            let vv = to_vec_bytes(records[idx + 2 + 2 * j].as_slice());
            let ghost pk = keys@;
            let ghost pv = vals@;
            keys.push(kk);
            vals.push(vv);
            proof {
                assert forall|t: int|
                    0 <= t < j + 1 implies (#[trigger] keys@[t])@ == rv[idx + 1 + 2 * t]
                        && vals@[t]@ == rv[idx + 2 + 2 * t] by {
                    if t < j {
                        assert(keys@[t] == pk[t]);
                        assert(vals@[t] == pv[t]);
                    }
                }
            }
            j += 1;
        }
        let ghost gkeys = seq_views(keys@);
        let ghost gvals = seq_views(vals@);
        let tree = match Tree::from_sorted(keys, vals) {
            Some(t) => t,
            None => {
                proof {
                    assert forall|c: Catalog|
                        c.wf() && list_encodable(recs_of(c.defs())) && bv
                            == #[trigger] spec_encode_catalog(c) implies false by {
                        let i = out@.len() as int;
                        let d = c.defs()[i];
                        lemma_recs_of_skip(c.defs(), i);
                        lemma_header_fields(rv[idx as int], d);
                        assert(rv.skip(idx as int).len() >= 1 + 2 * d.tree.len_spec());
                        assert(d.tree.len_spec() <= u64::MAX);
                        assert(count == d.tree.len_spec() as u64);
                        assert(cnt == d.tree.len_spec());
                        assert(gkeys.len() == d.tree.len_spec());
                        assert(gvals.len() == d.tree.len_spec());
                        lemma_entries_match(
                            rv,
                            idx as int,
                            d,
                            recs_of(c.defs().skip(i + 1)),
                            gkeys,
                            gvals,
                        );
                    }
                }
                return None;
            },
        };
        let ghost pre_out = out@;
        let ghost gidx = idx as int;
        out.push(TableDef { name, system, key_fingerprint: kfp, value_fingerprint: vfp, tree });
        idx = idx + 1 + 2 * cnt;
        proof {
            assert forall|c: Catalog|
                c.wf() && list_encodable(recs_of(c.defs())) && bv == #[trigger] spec_encode_catalog(
                    c,
                ) implies {
                &&& out@.len() <= c.defs().len()
                &&& forall|t: int|
                    0 <= t < out@.len() ==> def_matches(#[trigger] out@[t], c.defs()[t])
                &&& rv.skip(idx as int) == recs_of(c.defs().skip(out@.len() as int))
            } by {
                let i = pre_out.len() as int;
                let d = c.defs()[i];
                lemma_recs_of_skip(c.defs(), i);
                lemma_header_fields(rv[gidx], d);
                assert(rv.skip(gidx).len() >= 1 + 2 * d.tree.len_spec());
                assert(d.tree.len_spec() <= u64::MAX);
                assert(count == d.tree.len_spec() as u64);
                assert(cnt == d.tree.len_spec());
                assert(gkeys.len() == d.tree.len_spec());
                assert(gvals.len() == d.tree.len_spec());
                lemma_entries_match(rv, gidx, d, recs_of(c.defs().skip(i + 1)), gkeys, gvals);
                assert(def_matches(out@[i], d));
                assert forall|t: int|
                    0 <= t < out@.len() implies def_matches(#[trigger] out@[t], c.defs()[t]) by {
                    if t < i {
                        assert(def_matches(pre_out[t], c.defs()[t]));
                    }
                }
                let gc = cnt as int;
                assert(rv.skip(gidx).len() == 1 + 2 * gc + recs_of(c.defs().skip(i + 1)).len());
                assert forall|t: int|
                    0 <= t < rv.skip(idx as int).len() implies #[trigger] rv.skip(idx as int)[t]
                    == recs_of(c.defs().skip(i + 1))[t] by {
                    assert(rv.skip(idx as int)[t] == rv[gidx + 1 + 2 * gc + t]);
                    assert(rv.skip(gidx)[1 + 2 * gc + t] == rv[gidx + 1 + 2 * gc + t]);
                    assert(rv.skip(gidx)[1 + 2 * gc + t] == (table_records(d) + recs_of(
                        c.defs().skip(i + 1),
                    ))[1 + 2 * gc + t]);
                }
                assert(rv.skip(idx as int) =~= recs_of(c.defs().skip(i + 1)));
            }
        }
    }
    proof {
        assert forall|c: Catalog|
            c.wf() && list_encodable(recs_of(c.defs())) && bv == #[trigger] spec_encode_catalog(c)
                implies out@.len() == c.defs().len() by {
            if out@.len() < c.defs().len() {
                lemma_recs_of_skip(c.defs(), out@.len() as int);
                assert(rv.skip(idx as int).len() == 0);
            }
        }
    }
    Some(out)
}

/// Deserializes a catalog. Complete on well-formed encodings: if the bytes
/// are `spec_encode_catalog(c)` for a well-formed, encodable `c`, the result
/// carries exactly `c`'s tables.
pub fn decode_catalog(b: &[u8]) -> (r: Option<Catalog>)
    ensures
        r matches Some(c2) ==> c2.wf(),
        forall|c: Catalog|
            c.wf() && list_encodable(recs_of(c.defs())) && b@ == #[trigger] spec_encode_catalog(c)
                ==> (r matches Some(c2) && c2.matches(&c)),
{
    let records = match decode_byte_list(b) {
        Some(r) => r,
        None => {
            return None;
        },
    };
    let out = match parse_tables(&records, Ghost(b@)) {
        Some(out) => out,
        None => {
            return None;
        },
    };
    // every name-and-namespace pair must be unique
    let mut a: usize = 0;
    while a < out.len()
        invariant
            forall|x: int, y: int|
                0 <= x < y < out@.len() && x < a ==> !((#[trigger] out@[x]).name@ == (
                #[trigger] out@[y]).name@ && out@[x].system == out@[y].system),
            forall|t: int| 0 <= t < out@.len() ==> (#[trigger] out@[t]).tree.wf(),
            forall|c: Catalog|
                c.wf() && list_encodable(recs_of(c.defs())) && b@ == #[trigger] spec_encode_catalog(
                    c,
                ) ==> {
                    &&& out@.len() == c.defs().len()
                    &&& forall|t: int|
                        0 <= t < out@.len() ==> def_matches(#[trigger] out@[t], c.defs()[t])
                },
            a <= out@.len(),
        decreases out@.len() - a,
    {
        let mut y: usize = a + 1;
        while y < out.len()
            invariant
                a < out@.len(),
                a + 1 <= y <= out@.len(),
                forall|t: int|
                    a < t < y ==> !((#[trigger] out@[t]).name@ == out@[a as int].name@ && out@[t].system
                        == out@[a as int].system),
                forall|c: Catalog|
                    c.wf() && list_encodable(recs_of(c.defs())) && b@
                        == #[trigger] spec_encode_catalog(c) ==> {
                        &&& out@.len() == c.defs().len()
                        &&& forall|t: int|
                            0 <= t < out@.len() ==> def_matches(#[trigger] out@[t], c.defs()[t])
                    },
            decreases out@.len() - y,
        {
            if out[a].system == out[y].system && bytes_eq(
                out[a].name.as_slice(),
                out[y].name.as_slice(),
            ) {
                proof {
                    assert forall|c: Catalog|
                        c.wf() && list_encodable(recs_of(c.defs())) && b@
                            == #[trigger] spec_encode_catalog(c) implies false by {
                        assert(def_matches(out@[a as int], c.defs()[a as int]));
                        assert(def_matches(out@[y as int], c.defs()[y as int]));
                        assert(c.defs()[a as int].name@ == c.defs()[y as int].name@
                            && c.defs()[a as int].system == c.defs()[y as int].system);
                    }
                }
                return None;
            }
            y += 1;
        }
        a += 1;
    }
    let c2 = Catalog { tables: out };
    Some(c2)
}

/// Field decomposition of a header record.
pub proof fn lemma_header_fields(h: Seq<u8>, d: TableDef)
    requires
        h == spec_header(d),
    ensures
        h.len() == 25 + d.name@.len(),
        h[0] == (if d.system {
            1u8
        } else {
            0u8
        }),
        h.subrange(1, 9) == u64_le(d.key_fingerprint),
        h.subrange(9, 17) == u64_le(d.value_fingerprint),
        h.subrange(17, 25) == u64_le(d.tree.len_spec() as u64),
        h.subrange(25, h.len() as int) == d.name@,
        u64_from_le(h.subrange(1, 9)) == d.key_fingerprint,
        u64_from_le(h.subrange(9, 17)) == d.value_fingerprint,
        u64_from_le(h.subrange(17, 25)) == d.tree.len_spec() as u64,
{
    assert(h.subrange(1, 9) =~= u64_le(d.key_fingerprint));
    assert(h.subrange(9, 17) =~= u64_le(d.value_fingerprint));
    assert(h.subrange(17, 25) =~= u64_le(d.tree.len_spec() as u64));
    assert(h.subrange(25, h.len() as int) =~= d.name@);
    lemma_u64_le_roundtrip(d.key_fingerprint);
    lemma_u64_le_roundtrip(d.value_fingerprint);
    lemma_u64_le_roundtrip(d.tree.len_spec() as u64);
}

/// If the records from `idx` open with table `d`'s records, and the gathered
/// keys and values mirror the entry records, they are exactly `d`'s runs.
proof fn lemma_entries_match(
    rv: Seq<Seq<u8>>,
    idx: int,
    d: TableDef,
    rest: Seq<Seq<u8>>,
    gkeys: Seq<Seq<u8>>,
    gvals: Seq<Seq<u8>>,
)
    requires
        d.tree.wf(),
        0 <= idx <= rv.len(),
        rv.skip(idx) == table_records(d) + rest,
        gkeys.len() == d.tree.len_spec(),
        gvals.len() == d.tree.len_spec(),
        forall|t: int|
            0 <= t < gkeys.len() ==> #[trigger] gkeys[t] == rv[idx + 1 + 2 * t]
                && gvals[t] == rv[idx + 2 + 2 * t],
    ensures
        gkeys == d.tree.key_seq(),
        gvals == d.tree.val_seq(),
{
    let tr = table_records(d);
    let il = interleave(d.tree.key_seq(), d.tree.val_seq());
    assert(tr.len() == 1 + 2 * d.tree.len_spec());
    assert(rv.skip(idx).len() == tr.len() + rest.len());
    assert forall|t: int| 0 <= t < gkeys.len() implies gkeys[t] == d.tree.key_seq()[t] && gvals[t]
        == d.tree.val_seq()[t] by {
        assert(rv.skip(idx)[1 + 2 * t] == rv[idx + 1 + 2 * t]);
        assert(rv.skip(idx)[2 + 2 * t] == rv[idx + 2 + 2 * t]);
        assert(rv.skip(idx)[1 + 2 * t] == tr[1 + 2 * t]);
        assert(rv.skip(idx)[2 + 2 * t] == tr[2 + 2 * t]);
        assert(tr[1 + 2 * t] == il[2 * t]);
        assert(tr[2 + 2 * t] == il[2 * t + 1]);
        assert((2 * t) % 2 == 0 && (2 * t) / 2 == t);
        assert((2 * t + 1) % 2 == 1 && (2 * t + 1) / 2 == t);
    }
    assert(gkeys =~= d.tree.key_seq());
    assert(gvals =~= d.tree.val_seq());
}

} // verus!
