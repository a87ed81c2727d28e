//! The resource table: a package / type / entry hierarchy with one value
//! per density configuration.  A table is seeded by importing a serialized
//! base table (inheriting its identifiers), grown by merging type-level
//! chunks (existing identifiers never move), and frozen by serializing.

use vstd::prelude::*;
use crate::chunk::{
    Chunk, ChunkV, ResEntry, cv, cvs, enc, enc_children, lemma_children_snoc, lemma_cvs_index,
    lemma_cvs_len, lemma_cvs_snoc, lemma_enc_len, lemma_enc_strs_len, lemma_strs_len_split,
    lemma_strs_one, pad4, pool_hdr_len, strs_len, wf, wf_children,
};
use crate::write::ssv;
use crate::pool::{bytes_eq, StringPool};
use crate::parse::ParseError;

verus! {

/// Value type tag: a reference to another resource by identifier.
pub const TYPE_REFERENCE: u32 = 1;

/// Value type tag: a string (a pool index).
pub const TYPE_STRING: u32 = 3;

/// Value type tag: a decimal integer.
pub const TYPE_INT_DEC: u32 = 16;

/// Value type tag: a boolean (all bits set or cleared).
pub const TYPE_INT_BOOLEAN: u32 = 18;

/// One density configuration of a resource type: the values of its
/// entries under that configuration.
pub struct Variant {
    pub density: u32,
    pub values: Vec<ResEntry>,
}

/// A resource type: its one-byte id, its name (a pool index), the names
/// of its entries (the position of a name is the entry id), and its
/// per-density variants.
pub struct TypeDef {
    pub id: u32,
    pub name: u32,
    pub entry_names: Vec<u32>,
    pub variants: Vec<Variant>,
}

/// A package: its one-byte id, its name (a pool index), its string pool
/// and its types.
pub struct Package {
    pub id: u32,
    pub name: u32,
    pub pool: StringPool,
    pub types: Vec<TypeDef>,
}

/// Why an import was rejected.
#[derive(Debug, Clone, Copy, PartialEq, Eq, Structural)]
pub enum ImportError {
    /// The bytes are not a parseable chunk tree.
    Parse(ParseError),
    /// The root chunk is not a resource table, or its shape is invalid.
    MalformedTable,
}

/// Why a merge was rejected.
#[derive(Debug, Clone, Copy, PartialEq, Eq, Structural)]
pub enum MergeError {
    /// No package has been imported yet.
    PackageNotFound,
    /// The table was already serialized.
    TableFinalized,
    /// The chunk is not a package-shaped type chunk.
    MalformedChunk,
}

/// Why a serialization was rejected.
#[derive(Debug, Clone, Copy, PartialEq, Eq, Structural)]
pub enum TableError {
    /// The table was already serialized.
    TableFinalized,
    /// A pool or entry list exceeds the format's length fields.
    TooLarge,
}

/// The string a pool index denotes; out-of-range indices denote nothing.
pub open spec fn pool_at(pool: Seq<Seq<u8>>, idx: u32) -> Seq<u8> {
    if (idx as int) < pool.len() {
        pool[idx as int]
    } else {
        Seq::empty()
    }
}

/// The first position in `names` whose pool string equals `target`;
/// `names.len()` when none does.
pub open spec fn find_name(pool: Seq<Seq<u8>>, names: Seq<u32>, target: Seq<u8>) -> int
    decreases names.len(),
{
    if names.len() == 0 {
        0
    } else if pool_at(pool, names[0]) == target {
        0
    } else {
        1 + find_name(pool, names.drop_first(), target)
    }
}

pub proof fn lemma_find_name_found(pool: Seq<Seq<u8>>, names: Seq<u32>, target: Seq<u8>, i: int)
    requires
        0 <= i < names.len(),
        pool_at(pool, names[i]) == target,
        forall|k: int| 0 <= k < i ==> pool_at(pool, #[trigger] names[k]) != target,
    ensures
        find_name(pool, names, target) == i,
    decreases i,
{
    if i > 0 {
        lemma_find_name_found(pool, names.drop_first(), target, i - 1);
    }
}

pub proof fn lemma_find_name_none(pool: Seq<Seq<u8>>, names: Seq<u32>, target: Seq<u8>)
    requires
        forall|k: int| 0 <= k < names.len() ==> pool_at(pool, #[trigger] names[k]) != target,
    ensures
        find_name(pool, names, target) == names.len(),
    decreases names.len(),
{
    if names.len() > 0 {
        lemma_find_name_none(pool, names.drop_first(), target);
    }
}

pub proof fn lemma_find_name_in_range(pool: Seq<Seq<u8>>, names: Seq<u32>, target: Seq<u8>)
    ensures
        0 <= find_name(pool, names, target) <= names.len(),
        find_name(pool, names, target) < names.len() ==> pool_at(
            pool,
            names[find_name(pool, names, target)],
        ) == target,
    decreases names.len(),
{
    if names.len() > 0 && pool_at(pool, names[0]) != target {
        lemma_find_name_in_range(pool, names.drop_first(), target);
    }
}

/// The names of a package's types.
pub open spec fn tnames(ts: Seq<TypeDef>) -> Seq<u32> {
    ts.map_values(|t: TypeDef| t.name)
}

/// A packed resource identifier: package byte, type byte, entry half-word.
pub open spec fn res_id(p: u32, t: u32, e: int) -> u32
    recommends
        p <= 255,
        t <= 255,
        0 <= e <= 0xFFFF,
{
    (p * 0x1000000 + t * 0x10000 + e) as u32
}

impl TypeDef {
    pub open spec fn inv(&self, pool_len: int) -> bool {
        self.id <= 255 && (self.name as int) < pool_len && self.entry_names@.len() <= 0xFFFF
            && forall|e: int|
            0 <= e < self.entry_names@.len() ==> (#[trigger] self.entry_names@[e] as int)
                < pool_len
    }
}

impl Package {
    pub open spec fn inv(&self) -> bool {
        self.id <= 255 && self.pool.inv() && forall|t: int|
            0 <= t < self.types@.len() ==> (#[trigger] self.types@[t]).inv(
                self.pool.strs().len() as int,
            )
    }
}

/// The resource table and its lifecycle flag.
pub struct Table {
    pub finalized: bool,
    pub packages: Vec<Package>,
}

/// What a symbolic (type name, entry name) pair resolves to: the first
/// matching type of the first package, the first matching entry in it.
pub open spec fn spec_resolve(t: Table, tn: Seq<u8>, en: Seq<u8>) -> Option<u32> {
    if t.packages@.len() == 0 {
        None
    } else {
        let p = t.packages@[0];
        let ti = find_name(p.pool.strs(), tnames(p.types@), tn);
        if ti == p.types@.len() {
            None
        } else {
            let ty = p.types@[ti];
            let ei = find_name(p.pool.strs(), ty.entry_names@, en);
            if ei == ty.entry_names@.len() {
                None
            } else {
                Some(res_id(p.id, ty.id, ei))
            }
        }
    }
}

impl Table {
    pub open spec fn inv(&self) -> bool {
        forall|p: int| 0 <= p < self.packages@.len() ==> (#[trigger] self.packages@[p]).inv()
    }

    /// An empty, unseeded table.
    pub fn new() -> (t: Table)
        ensures
            t.inv(),
            !t.finalized,
            t.packages@.len() == 0,
    {
        Table { finalized: false, packages: Vec::new() }
    }
}

impl Default for Table {
    /// An empty, unseeded table.
    fn default() -> (t: Table)
        ensures
            t.inv(),
            !t.finalized,
            t.packages@.len() == 0,
    {
        Table::new()
    }
}

/// Whether the pool string at `idx` equals `target`.
fn name_matches(pool: &StringPool, idx: u32, target: &Vec<u8>) -> (r: bool)
    ensures
        r == (pool_at(pool.strs(), idx) == target@),
{
    if (idx as usize) < pool.strings.len() {
        bytes_eq(&pool.strings[idx as usize], target)
    } else {
        proof {
            if target@.len() == 0 {
                assert(Seq::<u8>::empty() =~= target@);
            }
        }
        target.len() == 0
    }
}

impl Table {
    /// Turns a symbolic reference into the numeric identifier of the first
    /// matching entry, or `None` when the table holds no such resource.
    #[verifier::loop_isolation(false)]
    pub fn resolve(&self, tname: &Vec<u8>, ename: &Vec<u8>) -> (r: Option<u32>)
        requires
            self.inv(),
        ensures
            r == spec_resolve(*self, tname@, ename@),
    {
        if self.packages.len() == 0 {
            return None;
        }
        let p = &self.packages[0];
        let ghost tns = tnames(p.types@);
        proof {
            assert(tns.len() == p.types@.len());
        }
        let nt = p.types.len();
        let mut ti: usize = 0;
        let mut found_t: bool = false;
        while ti < nt && !found_t
            invariant
                0 <= ti <= nt,
                !found_t ==> forall|k: int|
                    0 <= k < ti ==> pool_at(p.pool.strs(), #[trigger] tns[k]) != tname@,
                found_t ==> ti < nt && pool_at(p.pool.strs(), tns[ti as int]) == tname@
                    && forall|k: int|
                    0 <= k < ti ==> pool_at(p.pool.strs(), #[trigger] tns[k]) != tname@,
            decreases nt - ti + if found_t {
                0int
            } else {
                1int
            },
        {
            proof {
                assert(tns[ti as int] == p.types@[ti as int].name);
            }
            if name_matches(&p.pool, p.types[ti].name, tname) {
                found_t = true;
            } else {
                ti = ti + 1;
            }
        }
        if !found_t {
            proof {
                lemma_find_name_none(p.pool.strs(), tns, tname@);
            }
            return None;
        }
        proof {
            lemma_find_name_found(p.pool.strs(), tns, tname@, ti as int);
        }
        let ty = &p.types[ti];
        let ne = ty.entry_names.len();
        let mut ei: usize = 0;
        let mut found_e: bool = false;
        while ei < ne && !found_e
            invariant
                0 <= ei <= ne,
                ty == &p.types@[ti as int],
                ne == ty.entry_names@.len(),
                !found_e ==> forall|k: int|
                    0 <= k < ei ==> pool_at(p.pool.strs(), #[trigger] ty.entry_names@[k])
                        != ename@,
                found_e ==> ei < ne && pool_at(p.pool.strs(), ty.entry_names@[ei as int])
                    == ename@ && forall|k: int|
                    0 <= k < ei ==> pool_at(p.pool.strs(), #[trigger] ty.entry_names@[k])
                        != ename@,
            decreases ne - ei + if found_e {
                0int
            } else {
                1int
            },
        {
            if name_matches(&p.pool, ty.entry_names[ei], ename) {
                found_e = true;
            } else {
                ei = ei + 1;
            }
        }
        if !found_e {
            proof {
                lemma_find_name_none(p.pool.strs(), ty.entry_names@, ename@);
            }
            return None;
        }
        proof {
            lemma_find_name_found(p.pool.strs(), ty.entry_names@, ename@, ei as int);
        }
        Some(p.id * 0x1000000 + ty.id * 0x10000 + (ei as u32))
    }
}

// --- identifier stability --------------------------------------------------

/// A type grown only at the end: same id and name, old entry names kept at
/// their positions.
pub open spec fn typ_extends(to: TypeDef, tn: TypeDef) -> bool {
    tn.id == to.id && tn.name == to.name && to.entry_names@.len() <= tn.entry_names@.len()
        && forall|e: int|
        0 <= e < to.entry_names@.len() ==> tn.entry_names@[e] == #[trigger] to.entry_names@[e]
}

/// A package grown only at the end: same id, pool entries kept at their
/// indices, old types kept (each only extended), new types appended.
pub open spec fn pkg_extends(po: Package, pn: Package) -> bool {
    pn.id == po.id && pn.name == po.name && po.pool.strs().len() <= pn.pool.strs().len()
        && (forall|i: int|
        0 <= i < po.pool.strs().len() ==> pn.pool.strs()[i] == #[trigger] po.pool.strs()[i])
        && po.types@.len() <= pn.types@.len() && forall|t: int|
        0 <= t < po.types@.len() ==> typ_extends(#[trigger] po.types@[t], pn.types@[t])
}

/// A table whose packages were each only extended.
pub open spec fn table_extends(to: Table, tn: Table) -> bool {
    tn.packages@.len() == to.packages@.len() && forall|p: int|
        0 <= p < to.packages@.len() ==> pkg_extends(#[trigger] to.packages@[p], tn.packages@[p])
}

/// Identifier stability: a merge never changes the identifier of an entry
/// that existed before it.  Any symbolic reference that resolved before a
/// table was extended resolves to the same identifier afterwards.
pub proof fn lemma_identifier_stability(to: Table, tn: Table, tname: Seq<u8>, ename: Seq<u8>)
    requires
        to.inv(),
        table_extends(to, tn),
        spec_resolve(to, tname, ename) is Some,
    ensures
        spec_resolve(tn, tname, ename) == spec_resolve(to, tname, ename),
{
    let po = to.packages@[0];
    let pn = tn.packages@[0];
    assert(pkg_extends(po, pn));
    let tnso = tnames(po.types@);
    let tnsn = tnames(pn.types@);
    let ti = find_name(po.pool.strs(), tnso, tname);
    lemma_find_name_in_range(po.pool.strs(), tnso, tname);
    assert(ti < po.types@.len());
    assert forall|k: int| 0 <= k < ti implies pool_at(pn.pool.strs(), #[trigger] tnsn[k])
        != tname by {
        assert(tnsn[k] == pn.types@[k].name);
        assert(tnso[k] == po.types@[k].name);
        assert(typ_extends(po.types@[k], pn.types@[k]));
        assert(po.types@[k].inv(po.pool.strs().len() as int));
        assert(pool_at(pn.pool.strs(), tnsn[k]) == pool_at(po.pool.strs(), tnso[k]));
        lemma_find_name_found_prefix(po, tnso, tname, ti, k);
    }
    assert(tnsn[ti] == pn.types@[ti].name && tnso[ti] == po.types@[ti].name);
    assert(typ_extends(po.types@[ti], pn.types@[ti]));
    assert(po.types@[ti].inv(po.pool.strs().len() as int));
    assert(pool_at(pn.pool.strs(), tnsn[ti]) == pool_at(po.pool.strs(), tnso[ti]));
    lemma_find_name_found(pn.pool.strs(), tnsn, tname, ti);
    let tyo = po.types@[ti];
    let tyn = pn.types@[ti];
    let ei = find_name(po.pool.strs(), tyo.entry_names@, ename);
    lemma_find_name_in_range(po.pool.strs(), tyo.entry_names@, ename);
    assert(ei < tyo.entry_names@.len());
    assert forall|k: int| 0 <= k < ei implies pool_at(
        pn.pool.strs(),
        #[trigger] tyn.entry_names@[k],
    ) != ename by {
        assert(tyn.entry_names@[k] == tyo.entry_names@[k]);
        assert(pool_at(pn.pool.strs(), tyn.entry_names@[k]) == pool_at(
            po.pool.strs(),
            tyo.entry_names@[k],
        ));
        lemma_find_name_found_prefix_entries(po, tyo, ename, ei, k);
    }
    assert(pool_at(pn.pool.strs(), tyn.entry_names@[ei]) == pool_at(
        po.pool.strs(),
        tyo.entry_names@[ei],
    ));
    lemma_find_name_found(pn.pool.strs(), tyn.entry_names@, ename, ei);
}

/// Positions before a first match do not match.
proof fn lemma_find_name_no_earlier(pool: Seq<Seq<u8>>, names: Seq<u32>, target: Seq<u8>, k: int)
    requires
        0 <= k < find_name(pool, names, target),
        find_name(pool, names, target) <= names.len(),
    ensures
        pool_at(pool, names[k]) != target,
    decreases k,
{
    if k > 0 {
        lemma_find_name_no_earlier(pool, names.drop_first(), target, k - 1);
    }
}

proof fn lemma_find_name_found_prefix(
    po: Package,
    tnso: Seq<u32>,
    target: Seq<u8>,
    ti: int,
    k: int,
)
    requires
        tnso == tnames(po.types@),
        ti == find_name(po.pool.strs(), tnso, target),
        ti <= tnso.len(),
        0 <= k < ti,
    ensures
        pool_at(po.pool.strs(), tnso[k]) != target,
{
    lemma_find_name_no_earlier(po.pool.strs(), tnso, target, k);
}

proof fn lemma_find_name_found_prefix_entries(
    po: Package,
    tyo: TypeDef,
    target: Seq<u8>,
    ei: int,
    k: int,
)
    requires
        ei == find_name(po.pool.strs(), tyo.entry_names@, target),
        ei <= tyo.entry_names@.len(),
        0 <= k < ei,
    ensures
        pool_at(po.pool.strs(), tyo.entry_names@[k]) != target,
{
    lemma_find_name_no_earlier(po.pool.strs(), tyo.entry_names@, target, k);
}


/// The number of entries carried by the table-type chunks of a list.
pub open spec fn tt_entry_count(cs: Seq<ChunkV>) -> int
    decreases cs.len(),
{
    if cs.len() == 0 {
        0
    } else {
        (match cs[0] {
            ChunkV::TableType { entries, .. } => entries.len() as int,
            _ => 0int,
        }) + tt_entry_count(cs.drop_first())
    }
}

pub proof fn lemma_tt_count_one(c: ChunkV)
    ensures
        tt_entry_count(seq![c]) == (match c {
            ChunkV::TableType { entries, .. } => entries.len() as int,
            _ => 0int,
        }),
{
    assert(seq![c][0] == c);
    assert(seq![c].drop_first() =~= Seq::<ChunkV>::empty());
    assert(tt_entry_count(Seq::<ChunkV>::empty()) == 0);
}

pub proof fn lemma_tt_entry_count_split(cs: Seq<ChunkV>, i: int)
    requires
        0 <= i <= cs.len(),
    ensures
        tt_entry_count(cs) == tt_entry_count(cs.take(i)) + tt_entry_count(cs.skip(i)),
    decreases i,
{
    if i == 0 {
        assert(cs.take(0) =~= Seq::<ChunkV>::empty());
        assert(cs.skip(0) =~= cs);
    } else {
        lemma_tt_entry_count_split(cs.drop_first(), i - 1);
        assert(cs.drop_first().take(i - 1) =~= cs.take(i).drop_first());
        assert(cs.drop_first().skip(i - 1) =~= cs.skip(i));
        assert(cs.take(i)[0] == cs[0]);
    }
}

pub proof fn lemma_pkg_extends_refl(p: Package)
    ensures
        pkg_extends(p, p),
{
    assert forall|t: int| 0 <= t < p.types@.len() implies typ_extends(
        #[trigger] p.types@[t],
        p.types@[t],
    ) by {}
}

pub proof fn lemma_pkg_extends_trans(a: Package, b: Package, c: Package)
    requires
        pkg_extends(a, b),
        pkg_extends(b, c),
    ensures
        pkg_extends(a, c),
{
    assert forall|t: int| 0 <= t < a.types@.len() implies typ_extends(
        #[trigger] a.types@[t],
        c.types@[t],
    ) by {
        assert(typ_extends(a.types@[t], b.types@[t]));
        assert(typ_extends(b.types@[t], c.types@[t]));
    }
}

/// Copies a byte string.
#[verifier::loop_isolation(false)]
pub fn clone_bytes(v: &Vec<u8>) -> (r: Vec<u8>)
    ensures
        r@ == v@,
{
    let mut r: Vec<u8> = Vec::new();
    let n = v.len();
    let mut i: usize = 0;
    while i < n
        invariant
            i <= n,
            r@ == v@.take(i as int),
        decreases n - i,
    {
        r.push(v[i]);
        proof {
            assert(r@ =~= v@.take(i as int + 1));
        }
        i = i + 1;
    }
    proof {
        assert(v@.take(n as int) =~= v@);
    }
    r
}

/// Copies a run of resource entries.
#[verifier::loop_isolation(false)]
pub fn clone_entries(es: &Vec<ResEntry>) -> (r: Vec<ResEntry>)
    ensures
        r@ == es@,
{
    let mut r: Vec<ResEntry> = Vec::new();
    let n = es.len();
    let mut i: usize = 0;
    while i < n
        invariant
            i <= n,
            r@ == es@.take(i as int),
        decreases n - i,
    {
        r.push(es[i]);
        proof {
            assert(r@ =~= es@.take(i as int + 1));
        }
        i = i + 1;
    }
    proof {
        assert(es@.take(n as int) =~= es@);
    }
    r
}

impl Table {
    /// Seeds a table from a serialized base table, inheriting every
    /// identifier it defines.  Fails with a parse error when the bytes are
    /// not a chunk tree, and with `MalformedTable` when the root chunk is
    /// not a resource table, when trailing bytes follow it, or when a
    /// package inside it is inconsistent (duplicate pool entries,
    /// out-of-range name indices, clashing ids).
    pub fn import(data: &Vec<u8>) -> (r: Result<Table, ImportError>)
        ensures
            match r {
                Ok(t) => t.inv() && !t.finalized && (crate::parse::dec_chunk(
                    data@,
                    0,
                    data@.len() as int,
                    true,
                ) matches Ok(pr) && pr.0 is Table && pr.1 == data@.len()),
                Err(ImportError::Parse(e)) => crate::parse::dec_chunk(
                    data@,
                    0,
                    data@.len() as int,
                    true,
                ) == Err::<(crate::chunk::ChunkV, int), ParseError>(e),
                Err(ImportError::MalformedTable) => crate::parse::dec_chunk(
                    data@,
                    0,
                    data@.len() as int,
                    true,
                ) is Ok,
            },
            crate::parse::dec_chunk(data@, 0, data@.len() as int, true) matches Ok(pr) && !(pr.0
                is Table) ==> r == Err::<Table, _>(ImportError::MalformedTable),
            crate::parse::dec_chunk(data@, 0, data@.len() as int, true) matches Ok(pr) && pr.1
                != data@.len() ==> r == Err::<Table, _>(ImportError::MalformedTable),
    {
        let blen: usize = data.len();
        let parsed = match Chunk::parse(data, true) {
            Ok(p) => p,
            Err(e) => {
                return Err(ImportError::Parse(e));
            },
        };
        let (root, consumed) = parsed;
        if consumed != blen {
            // trailing bytes after the root chunk are a format violation
            return Err(ImportError::MalformedTable);
        }
        let mut children = match root {
            Chunk::Table { children } => children,
            _ => {
                return Err(ImportError::MalformedTable);
            },
        };
        let mut packages: Vec<Package> = Vec::new();
        while children.len() > 0
            invariant
                crate::parse::dec_chunk(data@, 0, data@.len() as int, true) matches Ok(pr) && pr.0
                    is Table && pr.1 == data@.len(),
                forall|p: int|
                    0 <= p < packages@.len() ==> (#[trigger] packages@[p]).inv(),
            decreases children@.len(),
        {
            let child = children.remove(0);
            match child {
                Chunk::Package { id, name, children: pcs } => {
                    match build_package(id, name, pcs) {
                        Ok(pkg) => packages.push(pkg),
                        Err(()) => {
                            return Err(ImportError::MalformedTable);
                        },
                    }
                },
                _ => {},
            }
        }
        Ok(Table { finalized: false, packages })
    }

    /// Accepts a package-shaped chunk (a string pool plus type chunks, as
    /// the mipmap compiler produces) and merges its types and entries into
    /// the first imported package.  An existing type keeps its id and its
    /// entries keep theirs; new entries and types are appended and receive
    /// the next free identifiers.  Returns one identifier per input entry,
    /// in input order, all packed with the seeded package's id.
    #[verifier::loop_isolation(false)]
    #[verifier::rlimit(100)]
    pub fn merge(&mut self, chunk: Chunk) -> (r: Result<Vec<u32>, MergeError>)
        requires
            old(self).inv(),
        ensures
            final(self).inv(),
            final(self).finalized == old(self).finalized,
            table_extends(*old(self), *final(self)),
            old(self).finalized ==> r == Err::<Vec<u32>, _>(MergeError::TableFinalized)
                && *final(self) == *old(self),
            !old(self).finalized && old(self).packages@.len() == 0 ==> r == Err::<Vec<u32>, _>(
                MergeError::PackageNotFound,
            ) && *final(self) == *old(self),
            r matches Ok(ids) ==> (cv(chunk) matches ChunkV::Package { children, .. } && ids@.len()
                == tt_entry_count(children)) && forall|q: int|
                0 <= q < ids@.len() ==> (#[trigger] ids@[q] as int) / 0x1000000 == old(
                    self,
                ).packages@[0].id as int,
    {
        let ghost cvg = cv(chunk);
        proof {
            assert forall|p: int| 0 <= p < old(self).packages@.len() implies pkg_extends(
                #[trigger] old(self).packages@[p],
                old(self).packages@[p],
            ) by {
                lemma_pkg_extends_refl(old(self).packages@[p]);
            }
        }
        if self.finalized {
            return Err(MergeError::TableFinalized);
        }
        if self.packages.len() == 0 {
            return Err(MergeError::PackageNotFound);
        }
        let mut pcs = match chunk {
            Chunk::Package { children, .. } => children,
            _ => {
                return Err(MergeError::MalformedChunk);
            },
        };
        let ghost pcs0 = cvs(pcs@);
        proof {
            assert(cvg matches ChunkV::Package { children, .. } && children == pcs0);
        }
        // split the input into its pool and its type chunks
        let mut spool: Option<Vec<Vec<u8>>> = None;
        let mut tts: Vec<Chunk> = Vec::new();
        let ghost mut done: int = 0;
        while pcs.len() > 0
            invariant
                0 <= done <= pcs0.len(),
                cvs(pcs@) == pcs0.skip(done),
                forall|k: int| 0 <= k < tts@.len() ==> (#[trigger] tts@[k]) is TableType,
                tt_entry_count(cvs(tts@)) == tt_entry_count(pcs0.take(done)),
            decreases pcs@.len(),
        {
            proof {
                lemma_cvs_len(pcs@);
                lemma_cvs_index(pcs@, 0);
                assert(pcs0.skip(done)[0] == cv(pcs@[0]));
                assert(pcs0.skip(done).drop_first() =~= pcs0.skip(done + 1));
                lemma_tt_entry_count_split(pcs0.take(done + 1), done);
                assert(pcs0.take(done + 1).take(done) =~= pcs0.take(done));
                assert(pcs0.take(done + 1).skip(done) =~= seq![pcs0[done]]);
                assert(seq![pcs0[done]].drop_first() =~= Seq::<ChunkV>::empty());
            }
            let ghost prev = pcs@;
            let c = pcs.remove(0);
            let ghost cg = cv(c);
            proof {
                assert(pcs@ =~= prev.drop_first());
                assert(cvs(prev) == seq![cv(prev[0])] + cvs(prev.drop_first()));
                assert(cvs(prev).drop_first() =~= cvs(prev.drop_first()));
                assert(cvs(pcs@) =~= pcs0.skip(done + 1)) by {
                    assert(pcs0.skip(done).drop_first() =~= pcs0.skip(done + 1));
                }
                assert(cg == pcs0[done]);
            }
            let ghost tts_prev = tts@;
            match c {
                Chunk::StringPool { strings, .. } => {
                    proof {
                        assert(cg is StringPool);
                        lemma_tt_count_one(pcs0[done]);
                    }
                    if spool.is_none() {
                        spool = Some(strings);
                    }
                },
                Chunk::TableType { .. } => {
                    tts.push(c);
                    proof {
                        lemma_cvs_len(tts_prev);
                        lemma_cvs_snoc(tts_prev, tts@[tts@.len() - 1]);
                        lemma_cvs_len(tts@);
                        lemma_tt_entry_count_split(cvs(tts@), tts_prev.len() as int);
                        assert(cvs(tts@).take(tts_prev.len() as int) =~= cvs(tts_prev));
                        assert(cvs(tts@).skip(tts_prev.len() as int) =~= seq![cg]);
                        lemma_tt_count_one(cg);
                        assert(tt_entry_count(cvs(tts@)) == tt_entry_count(cvs(tts_prev))
                            + tt_entry_count(seq![pcs0[done]]));
                    }
                },
                _ => {
                    proof {
                        assert(!(cg is TableType));
                        lemma_tt_count_one(pcs0[done]);
                    }
                },
            }
            proof {
                done = done + 1;
            }
        }
        proof {
            assert(pcs0.take(pcs0.len() as int) =~= pcs0);
            assert(tt_entry_count(cvs(tts@)) == tt_entry_count(pcs0));
        }
        let spool = match spool {
            Some(sp) => sp,
            None => {
                return Err(MergeError::MalformedChunk);
            },
        };
        let ghost pkg0 = old(self).packages@[0];
        let mut pkg = self.packages.remove(0);
        let mut ids: Vec<u32> = Vec::new();
        let nt = tts.len();
        let mut k: usize = 0;
        while k < nt
            invariant
                k <= nt,
                nt == tts@.len(),
                forall|j: int| 0 <= j < tts@.len() ==> (#[trigger] tts@[j]) is TableType,
                pkg.inv(),
                pkg_extends(pkg0, pkg),
                pkg.id == pkg0.id,
                self.packages@ == old(self).packages@.drop_first(),
                self.finalized == old(self).finalized,
                ids@.len() == tt_entry_count(cvs(tts@).take(k as int)),
                forall|q: int|
                    0 <= q < ids@.len() ==> (#[trigger] ids@[q] as int) / 0x1000000
                        == pkg0.id as int,
            decreases nt - k,
        {
            let ghost pkg_before = pkg;
            let (nidx, density, entries) = match &tts[k] {
                Chunk::TableType { id: _, name, density, entries } => {
                    let cloned = clone_entries(entries);
                    proof {
                        assert(cv(tts@[k as int]) matches ChunkV::TableType { entries: es, .. }
                            && es == cloned@);
                    }
                    (*name, *density, cloned)
                },
                _ => {
                    self.packages.insert(0, pkg);
                    proof {
                        assert(self.packages@ =~= seq![pkg_before] + old(
                            self,
                        ).packages@.drop_first());
                        lemma_table_put_back(*old(self), *self, pkg0, pkg_before);
                    }
                    return Err(MergeError::MalformedChunk);
                },
            };
            if (nidx as usize) >= spool.len() {
                self.packages.insert(0, pkg);
                proof {
                    assert(self.packages@ =~= seq![pkg_before] + old(
                        self,
                    ).packages@.drop_first());
                    lemma_table_put_back(*old(self), *self, pkg0, pkg_before);
                }
                return Err(MergeError::MalformedChunk);
            }
            let tn_bytes = clone_bytes(&spool[nidx as usize]);
            proof {
                lemma_cvs_len(tts@);
                lemma_cvs_index(tts@, k as int);
                lemma_tt_entry_count_split(cvs(tts@).take(k as int + 1), k as int);
                assert(cvs(tts@).take(k as int + 1).take(k as int) =~= cvs(tts@).take(k as int));
                assert(cvs(tts@).take(k as int + 1).skip(k as int) =~= seq![cvs(tts@)[k as int]]);
                assert(seq![cvs(tts@)[k as int]].drop_first() =~= Seq::<ChunkV>::empty());
                assert(cvs(tts@)[k as int] == cv(tts@[k as int]));
                lemma_tt_count_one(cvs(tts@)[k as int]);
                assert(tt_entry_count(seq![cvs(tts@)[k as int]]) == entries@.len());
                assert(tt_entry_count(cvs(tts@).take(k as int + 1)) == tt_entry_count(
                    cvs(tts@).take(k as int),
                ) + entries@.len());
            }
            let ghost ids_before = ids@;
            match merge_type(&mut pkg, &spool, tn_bytes, density, &entries, &mut ids) {
                Ok(()) => {},
                Err(()) => {
                    proof {
                        lemma_pkg_extends_trans(pkg0, pkg_before, pkg);
                    }
                    let ghost pkg_now = pkg;
                    self.packages.insert(0, pkg);
                    proof {
                        assert(self.packages@ =~= seq![pkg_now] + old(
                            self,
                        ).packages@.drop_first());
                        lemma_table_put_back(*old(self), *self, pkg0, pkg_now);
                    }
                    return Err(MergeError::MalformedChunk);
                },
            }
            proof {
                lemma_pkg_extends_trans(pkg0, pkg_before, pkg);
                assert forall|q: int| 0 <= q < ids@.len() implies (#[trigger] ids@[q] as int)
                    / 0x1000000 == pkg0.id as int by {
                    if q < ids_before.len() {
                        assert(ids@.take(ids_before.len() as int)[q] == ids@[q]);
                        assert(ids@[q] == ids_before[q]);
                    }
                }
            }
            k = k + 1;
        }
        let ghost pkg_done = pkg;
        self.packages.insert(0, pkg);
        proof {
            assert(self.packages@ =~= seq![pkg_done] + old(self).packages@.drop_first());
            lemma_table_put_back(*old(self), *self, pkg0, pkg_done);
            assert(cvs(tts@).take(k as int) =~= cvs(tts@)) by {
                lemma_cvs_len(tts@);
            }
            assert(ids@.len() == tt_entry_count(pcs0));
        }
        Ok(ids)
    }
}

/// Restoring the package at the head leaves a table that extends the old
/// one when the package itself was only extended.
proof fn lemma_table_put_back(to: Table, tn: Table, pkg0: Package, pkg: Package)
    requires
        to.packages@.len() > 0,
        pkg0 == to.packages@[0],
        pkg.inv(),
        pkg_extends(pkg0, pkg),
        to.inv(),
        tn.packages@ == seq![pkg] + to.packages@.drop_first(),
        tn.finalized == to.finalized,
    ensures
        table_extends(to, tn),
        tn.inv(),
{
    assert(tn.packages@.len() == to.packages@.len());
    assert forall|p: int| 0 <= p < to.packages@.len() implies pkg_extends(
        #[trigger] to.packages@[p],
        tn.packages@[p],
    ) by {
        if p == 0 {
            assert(tn.packages@[0] == pkg);
        } else {
            assert(tn.packages@[p] == to.packages@.drop_first()[p - 1]);
            assert(to.packages@.drop_first()[p - 1] == to.packages@[p]);
            lemma_pkg_extends_refl(to.packages@[p]);
        }
    }
    assert forall|p: int| 0 <= p < tn.packages@.len() implies (
    #[trigger] tn.packages@[p]).inv() by {
        if p > 0 {
            assert(tn.packages@[p] == to.packages@[p]);
        }
    }
}

/// Merges one type chunk into a package: finds or allocates the type,
/// then appends its entries, interning names and string values into the
/// package's pool.  Only appends: nothing existing moves.
#[verifier::loop_isolation(false)]
#[verifier::rlimit(100)]
fn merge_type(
    pkg: &mut Package,
    spool: &Vec<Vec<u8>>,
    tn_bytes: Vec<u8>,
    density: u32,
    entries: &Vec<ResEntry>,
    ids: &mut Vec<u32>,
) -> (r: Result<(), ()>)
    requires
        old(pkg).inv(),
    ensures
        final(pkg).inv(),
        pkg_extends(*old(pkg), *final(pkg)),
        final(pkg).id == old(pkg).id,
        r is Ok ==> final(ids)@.len() == old(ids)@.len() + entries@.len(),
        final(ids)@.take(old(ids)@.len() as int) == old(ids)@,
        forall|q: int|
            old(ids)@.len() <= q < final(ids)@.len() ==> (#[trigger] final(ids)@[q] as int)
                / 0x1000000 == old(pkg).id as int,
{
    proof {
        lemma_pkg_extends_refl(*old(pkg));
    }
    // find the type by name, else allocate the next free type id
    let nt = pkg.types.len();
    let mut t: usize = 0;
    let mut found: bool = false;
    while t < nt && !found
        invariant
            t <= nt,
            nt == pkg.types@.len(),
            found ==> t < nt,
        decreases nt - t + if found {
            0int
        } else {
            1int
        },
    {
        if name_matches(&pkg.pool, pkg.types[t].name, &tn_bytes) {
            found = true;
        } else {
            t = t + 1;
        }
    }
    if !found {
        // next unused type id
        let mut max_id: u32 = 0;
        let mut j: usize = 0;
        while j < nt
            invariant
                j <= nt,
                nt == pkg.types@.len(),
                max_id <= 255,
                pkg.inv(),
            decreases nt - j,
        {
            if pkg.types[j].id > max_id {
                max_id = pkg.types[j].id;
            }
            j = j + 1;
        }
        if max_id >= 255 {
            return Err(());
        }
        if pkg.pool.strings.len() >= 0xFFFF_FFFFusize {
            return Err(());
        }
        let ghost before = *pkg;
        let nmi = pkg.pool.intern(tn_bytes);
        let newty = TypeDef {
            id: max_id + 1,
            name: nmi as u32,
            entry_names: Vec::new(),
            variants: Vec::new(),
        };
        t = pkg.types.len();
        pkg.types.push(newty);
        proof {
            lemma_pool_growth_keeps_inv(before, *pkg);
            assert(pkg.types@[t as int].inv(pkg.pool.strs().len() as int));
            assert forall|q: int| 0 <= q < before.types@.len() implies typ_extends(
                #[trigger] before.types@[q],
                pkg.types@[q],
            ) by {
                assert(pkg.types@[q] == before.types@[q]);
            }
            assert(pkg_extends(before, *pkg));
        }
    }
    let ghost mid = *pkg;
    // append the entries of this density variant
    let mut ty = pkg.types.remove(t);
    let ghost ty0 = ty;
    // find or create the variant for this density
    let nv = ty.variants.len();
    let mut v: usize = 0;
    let mut vfound: bool = false;
    while v < nv && !vfound
        invariant
            v <= nv,
            nv == ty.variants@.len(),
            vfound ==> v < nv,
        decreases nv - v + if vfound {
            0int
        } else {
            1int
        },
    {
        if ty.variants[v].density == density {
            vfound = true;
        } else {
            v = v + 1;
        }
    }
    if !vfound {
        v = ty.variants.len();
        ty.variants.push(Variant { density, values: Vec::new() });
    }
    let mut var = ty.variants.remove(v);
    let ne = entries.len();
    let mut e: usize = 0;
    let mut ok: bool = true;
    while ok && e < ne
        invariant
            e <= ne,
            ne == entries@.len(),
            pkg.inv(),
            pkg.types@ == mid.types@.remove(t as int),
            t as int <= mid.types@.len(),
            mid.id == old(pkg).id,
            ids@.len() == old(ids)@.len() + e,
            ids@.take(old(ids)@.len() as int) == old(ids)@,
            forall|q: int|
                old(ids)@.len() <= q < ids@.len() ==> (#[trigger] ids@[q] as int) / 0x1000000
                    == old(pkg).id as int,
            pkg.id == mid.id,
            pkg.name == mid.name,
            mid.pool.strs().len() <= pkg.pool.strs().len(),
            forall|i: int|
                0 <= i < mid.pool.strs().len() ==> pkg.pool.strs()[i]
                    == #[trigger] mid.pool.strs()[i],
            typ_extends(ty0, ty),
            ty.inv(pkg.pool.strs().len() as int),
            ty0 == mid.types@[t as int],
            v as int <= ty.variants@.len(),
        decreases ne - e,
    {
        let en = entries[e];
        if (en.name as usize) >= spool.len() {
            ok = false;
            break;
        }
        if en.typ == TYPE_STRING && (en.data as usize) >= spool.len() {
            ok = false;
            break;
        }
        let en_bytes = clone_bytes(&spool[en.name as usize]);
        // the value: re-intern string data into the package pool
        if pkg.pool.strings.len() >= 0xFFFF_FFFEusize {
            ok = false;
            break;
        }
        let ghost pool_before = pkg.pool;
        let data2: u32 = if en.typ == TYPE_STRING {
            pkg.pool.intern(clone_bytes(&spool[en.data as usize])) as u32
        } else {
            en.data
        };
        // the entry id: an existing name keeps its id, a new one is appended
        let nen = ty.entry_names.len();
        let mut ei: usize = 0;
        let mut efound: bool = false;
        while ei < nen && !efound
            invariant
                ei <= nen,
                nen == ty.entry_names@.len(),
                efound ==> ei < nen,
            decreases nen - ei + if efound {
                0int
            } else {
                1int
            },
        {
            if name_matches(&pkg.pool, ty.entry_names[ei], &en_bytes) {
                efound = true;
            } else {
                ei = ei + 1;
            }
        }
        if !efound {
            if ty.entry_names.len() >= 0xFFFFusize {
                ok = false;
                break;
            }
            let nmi = pkg.pool.intern(en_bytes);
            ei = ty.entry_names.len();
            ty.entry_names.push(nmi as u32);
        }
        var.values.push(ResEntry { name: ty.entry_names[ei], typ: en.typ, data: data2 });
        let newid: u32 = pkg.id * 0x1000000 + ty.id * 0x10000 + (ei as u32);
        ids.push(newid);
        proof {
            assert(ids@.take(old(ids)@.len() as int) =~= old(ids)@);
            assert((newid as int) / 0x1000000 == old(pkg).id as int) by {
                vstd::arithmetic::div_mod::lemma_fundamental_div_mod_converse(
                    newid as int,
                    0x1000000,
                    old(pkg).id as int,
                    ty.id as int * 0x10000 + ei as int,
                );
            }
        }
        e = e + 1;
    }
    ty.variants.insert(v, var);
    pkg.types.insert(t, ty);
    proof {
        assert(pkg.types@ =~= mid.types@.update(t as int, ty));
        assert forall|q: int| 0 <= q < old(pkg).types@.len() implies typ_extends(
            #[trigger] old(pkg).types@[q],
            pkg.types@[q],
        ) by {
            assert(typ_extends(old(pkg).types@[q], mid.types@[q]));
            if q == t as int {
                assert(pkg.types@[q] == ty);
            } else {
                assert(pkg.types@[q] == mid.types@[q]);
                lemma_typ_extends_refl(mid.types@[q]);
            }
        }
        assert forall|q: int| 0 <= q < pkg.types@.len() implies (#[trigger] pkg.types@[q]).inv(
            pkg.pool.strs().len() as int,
        ) by {
            if q != t as int {
                assert(pkg.types@[q] == mid.types@[q]);
                assert(mid.types@[q].inv(mid.pool.strs().len() as int));
            }
        }
        assert(pkg.inv());
        assert(pkg_extends(*old(pkg), *pkg));
    }
    if ok {
        Ok(())
    } else {
        Err(())
    }
}

proof fn lemma_typ_extends_refl(t: TypeDef)
    ensures
        typ_extends(t, t),
{
}

/// A pool that only grew keeps every type valid.
proof fn lemma_pool_growth_keeps_inv(before: Package, after: Package)
    requires
        before.inv(),
        after.id == before.id,
        after.pool.inv(),
        after.pool.strs().len() <= 0xFFFF_FFFF,
        before.pool.strs().len() <= after.pool.strs().len(),
        forall|q: int|
            0 <= q < before.types@.len() ==> after.types@.len() > q && #[trigger] after.types@[q]
                == before.types@[q],
    ensures
        forall|q: int|
            0 <= q < before.types@.len() ==> (#[trigger] after.types@[q]).inv(
                after.pool.strs().len() as int,
            ),
{
    assert forall|q: int| 0 <= q < before.types@.len() implies (#[trigger] after.types@[q]).inv(
        after.pool.strs().len() as int,
    ) by {
        assert(before.types@[q].inv(before.pool.strs().len() as int));
    }
}

/// Builds a package from an imported package chunk's children: its pool
/// (entries must already be deduplicated) and its type chunks.
#[verifier::loop_isolation(false)]
#[verifier::rlimit(100)]
fn build_package(id: u32, name: u32, pcs: Vec<Chunk>) -> (r: Result<Package, ()>)
    ensures
        r matches Ok(p) ==> p.inv(),
{
    if id > 255 {
        return Err(());
    }
    let mut pcs = pcs;
    let mut pool_strings: Option<Vec<Vec<u8>>> = None;
    let mut tts: Vec<Chunk> = Vec::new();
    while pcs.len() > 0
        invariant
            forall|j: int| 0 <= j < tts@.len() ==> (#[trigger] tts@[j]) is TableType,
        decreases pcs@.len(),
    {
        let c = pcs.remove(0);
        match c {
            Chunk::StringPool { strings, .. } => {
                if pool_strings.is_none() {
                    pool_strings = Some(strings);
                }
            },
            Chunk::TableType { .. } => {
                tts.push(c);
            },
            _ => {},
        }
    }
    let mut pool = StringPool::new(true);
    match pool_strings {
        Some(mut sps) => {
            while sps.len() > 0
                invariant
                    pool.inv(),
                    pool.strs().len() <= 0xFFFF_FFFF,
                decreases sps@.len(),
            {
                if pool.strings.len() >= 0xFFFF_FFFFusize {
                    return Err(());
                }
                let s = sps.remove(0);
                let before = pool.strings.len();
                let idx = pool.intern(s);
                if idx != before {
                    // a duplicate entry: the pool was not deduplicated
                    return Err(());
                }
            }
        },
        None => {},
    }
    let mut pkg = Package { id, name, pool, types: Vec::new() };
    proof {
        assert(pkg.inv());
    }
    let nt = tts.len();
    let mut k: usize = 0;
    while k < nt
        invariant
            k <= nt,
            nt == tts@.len(),
            forall|j: int| 0 <= j < tts@.len() ==> (#[trigger] tts@[j]) is TableType,
            pkg.inv(),
        decreases nt - k,
    {
        let (tid, nidx, density, entries) = match &tts[k] {
            Chunk::TableType { id, name, density, entries } => (
                *id,
                *name,
                *density,
                clone_entries(entries),
            ),
            _ => {
                return Err(());
            },
        };
        if tid > 255 {
            return Err(());
        }
        if (nidx as usize) >= pkg.pool.strings.len() {
            return Err(());
        }
        if entries.len() > 0xFFFFusize {
            return Err(());
        }
        // find an existing type with the same name index
        let ntypes = pkg.types.len();
        let mut t: usize = 0;
        let mut found: bool = false;
        while t < ntypes && !found
            invariant
                t <= ntypes,
                ntypes == pkg.types@.len(),
                found ==> t < ntypes,
            decreases ntypes - t + if found {
                0int
            } else {
                1int
            },
        {
            if pkg.types[t].name == nidx {
                found = true;
            } else {
                t = t + 1;
            }
        }
        if !found {
            t = pkg.types.len();
            pkg.types.push(
                TypeDef { id: tid, name: nidx, entry_names: Vec::new(), variants: Vec::new() },
            );
            proof {
                assert forall|q: int| 0 <= q < pkg.types@.len() implies (
                #[trigger] pkg.types@[q]).inv(pkg.pool.strs().len() as int) by {}
            }
        } else {
            if pkg.types[t].id != tid {
                return Err(());
            }
        }
        let ghost mid = pkg;
        let mut ty = pkg.types.remove(t);
        // reconcile the entry name table with this variant's entries
        let ne = entries.len();
        let mut e: usize = 0;
        let mut ok: bool = true;
        while ok && e < ne
            invariant
                e <= ne,
                ne == entries@.len(),
                ne <= 0xFFFF,
                ty.id <= 255,
                (ty.name as int) < pkg.pool.strs().len(),
                ty.entry_names@.len() <= 0xFFFF,
                forall|q: int|
                    0 <= q < ty.entry_names@.len() ==> (#[trigger] ty.entry_names@[q] as int)
                        < pkg.pool.strs().len(),
            decreases ne - e,
        {
            let en = entries[e];
            if (en.name as usize) >= pkg.pool.strings.len() {
                ok = false;
                break;
            }
            if e < ty.entry_names.len() {
                if ty.entry_names[e] != en.name {
                    ok = false;
                    break;
                }
            } else {
                if ty.entry_names.len() >= 0xFFFFusize {
                    ok = false;
                    break;
                }
                ty.entry_names.push(en.name);
            }
            e = e + 1;
        }
        if !ok {
            return Err(());
        }
        ty.variants.push(Variant { density, values: entries });
        pkg.types.insert(t, ty);
        proof {
            assert(ty.inv(pkg.pool.strs().len() as int));
            assert(pkg.types@ =~= mid.types@.update(t as int, ty));
            assert forall|q: int| 0 <= q < pkg.types@.len() implies (#[trigger] pkg.types@[q]).inv(
                pkg.pool.strs().len() as int,
            ) by {
                if q != t as int {
                    assert(pkg.types@[q] == mid.types@[q]);
                }
            }
            assert(pkg.inv());
        }
        k = k + 1;
    }
    Ok(pkg)
}


// --- the serialized form of a table, as data -----------------------------

/// The chunk a pool serializes to.
pub open spec fn pool_chunk_of(p: StringPool) -> ChunkV {
    ChunkV::StringPool { utf8: p.utf8, strings: p.strs() }
}

/// One table-type chunk per density variant, in order.
pub open spec fn variant_chunks(id: u32, name: u32, vs: Seq<Variant>) -> Seq<ChunkV>
    decreases vs.len(),
{
    if vs.len() == 0 {
        Seq::empty()
    } else {
        seq![
            ChunkV::TableType { id, name, density: vs[0].density, entries: vs[0].values@ },
        ] + variant_chunks(id, name, vs.drop_first())
    }
}

/// A type's chunks: its type-spec (no flags are produced) and its
/// variants.
pub open spec fn type_chunks(ty: TypeDef) -> Seq<ChunkV> {
    seq![
        ChunkV::TypeSpec { id: ty.id, flags: Seq::new(ty.entry_names@.len(), |i: int| 0u32) },
    ] + variant_chunks(ty.id, ty.name, ty.variants@)
}

pub open spec fn types_chunks(ts: Seq<TypeDef>) -> Seq<ChunkV>
    decreases ts.len(),
{
    if ts.len() == 0 {
        Seq::empty()
    } else {
        type_chunks(ts[0]) + types_chunks(ts.drop_first())
    }
}

/// The children of a package's chunk: its pool, then its types' chunks.
pub open spec fn pkg_children_of(p: Package) -> Seq<ChunkV> {
    seq![pool_chunk_of(p.pool)] + types_chunks(p.types@)
}

pub open spec fn pkg_chunk_of(p: Package) -> ChunkV {
    ChunkV::Package { id: p.id, name: p.name, children: pkg_children_of(p) }
}

pub open spec fn pkgs_chunks(ps: Seq<Package>) -> Seq<ChunkV>
    decreases ps.len(),
{
    if ps.len() == 0 {
        Seq::empty()
    } else {
        seq![pkg_chunk_of(ps[0])] + pkgs_chunks(ps.drop_first())
    }
}

/// The chunk tree a table serializes to.
pub open spec fn chunk_of(t: Table) -> ChunkV {
    ChunkV::Table { children: pkgs_chunks(t.packages@) }
}

/// Whether a table fits the format's length fields: every pool within the
/// 16-bit header length, every count within its field, every chunk's
/// children within the 32-bit total length.
pub open spec fn pkg_fits(p: Package) -> bool {
    &&& 8 + pool_hdr_len(p.pool.strs()) <= 0xFFFF
    &&& forall|t: int|
        0 <= t < p.types@.len() ==> (#[trigger] p.types@[t]).entry_names@.len() <= 16379
    &&& forall|t: int, v: int|
        0 <= t < p.types@.len() && 0 <= v < p.types@[t].variants@.len() ==> (
        #[trigger] p.types@[t].variants@[v]).values@.len() <= 5459
    &&& enc_children(pkg_children_of(p)).len() <= 0xFFFF_FFEF
}

pub open spec fn table_fits(t: Table) -> bool {
    (forall|p: int| 0 <= p < t.packages@.len() ==> pkg_fits(#[trigger] t.packages@[p]))
        && enc_children(pkgs_chunks(t.packages@)).len() <= 0xFFFF_FFEF
}

proof fn lemma_types_chunks_split(ts: Seq<TypeDef>, i: int)
    requires
        0 <= i <= ts.len(),
    ensures
        types_chunks(ts) == types_chunks(ts.take(i)) + types_chunks(ts.skip(i)),
    decreases i,
{
    if i == 0 {
        assert(ts.take(0) =~= Seq::<TypeDef>::empty());
        assert(ts.skip(0) =~= ts);
        assert(types_chunks(ts) =~= types_chunks(ts.take(0)) + types_chunks(ts.skip(0)));
    } else {
        lemma_types_chunks_split(ts.drop_first(), i - 1);
        assert(ts.drop_first().take(i - 1) =~= ts.take(i).drop_first());
        assert(ts.drop_first().skip(i - 1) =~= ts.skip(i));
        assert(ts.take(i)[0] == ts[0]);
        assert(types_chunks(ts) =~= types_chunks(ts.take(i)) + types_chunks(ts.skip(i)));
    }
}

proof fn lemma_variant_chunks_split(id: u32, name: u32, vs: Seq<Variant>, i: int)
    requires
        0 <= i <= vs.len(),
    ensures
        variant_chunks(id, name, vs) == variant_chunks(id, name, vs.take(i)) + variant_chunks(
            id,
            name,
            vs.skip(i),
        ),
        variant_chunks(id, name, vs).len() == vs.len(),
    decreases i,
{
    lemma_variant_chunks_len(id, name, vs);
    if i == 0 {
        assert(vs.take(0) =~= Seq::<Variant>::empty());
        assert(vs.skip(0) =~= vs);
        assert(variant_chunks(id, name, vs) =~= variant_chunks(id, name, vs.take(0))
            + variant_chunks(id, name, vs.skip(0)));
    } else {
        lemma_variant_chunks_split(id, name, vs.drop_first(), i - 1);
        assert(vs.drop_first().take(i - 1) =~= vs.take(i).drop_first());
        assert(vs.drop_first().skip(i - 1) =~= vs.skip(i));
        assert(vs.take(i)[0] == vs[0]);
        assert(variant_chunks(id, name, vs) =~= variant_chunks(id, name, vs.take(i))
            + variant_chunks(id, name, vs.skip(i)));
    }
}

proof fn lemma_variant_chunks_len(id: u32, name: u32, vs: Seq<Variant>)
    ensures
        variant_chunks(id, name, vs).len() == vs.len(),
    decreases vs.len(),
{
    if vs.len() != 0 {
        lemma_variant_chunks_len(id, name, vs.drop_first());
    }
}

proof fn lemma_pkgs_chunks_split(ps: Seq<Package>, i: int)
    requires
        0 <= i <= ps.len(),
    ensures
        pkgs_chunks(ps) == pkgs_chunks(ps.take(i)) + pkgs_chunks(ps.skip(i)),
        pkgs_chunks(ps).len() == ps.len(),
    decreases i,
{
    lemma_pkgs_chunks_len(ps);
    if i == 0 {
        assert(ps.take(0) =~= Seq::<Package>::empty());
        assert(ps.skip(0) =~= ps);
        assert(pkgs_chunks(ps) =~= pkgs_chunks(ps.take(0)) + pkgs_chunks(ps.skip(0)));
    } else {
        lemma_pkgs_chunks_split(ps.drop_first(), i - 1);
        assert(ps.drop_first().take(i - 1) =~= ps.take(i).drop_first());
        assert(ps.drop_first().skip(i - 1) =~= ps.skip(i));
        assert(ps.take(i)[0] == ps[0]);
        assert(pkgs_chunks(ps) =~= pkgs_chunks(ps.take(i)) + pkgs_chunks(ps.skip(i)));
    }
}

proof fn lemma_pkgs_chunks_len(ps: Seq<Package>)
    ensures
        pkgs_chunks(ps).len() == ps.len(),
    decreases ps.len(),
{
    if ps.len() != 0 {
        lemma_pkgs_chunks_len(ps.drop_first());
    }
}

/// Whether a pool fits the format's 16-bit header length field.
#[verifier::loop_isolation(false)]
#[verifier::rlimit(100)]
pub(crate) fn pool_fits(strings: &Vec<Vec<u8>>) -> (r: bool)
    ensures
        r == (8 + pool_hdr_len(ssv(strings@)) <= 0xFFFF),
{
    let ghost all = ssv(strings@);
    proof {
        lemma_enc_strs_len(all);
    }
    let n = strings.len();
    if n > 16379 {
        return false;
    }
    let mut i: usize = 0;
    let mut sl: u64 = 0;
    while i < n
        invariant
            i <= n,
            sl == strs_len(all.take(i as int)),
            0 <= sl <= 0x10000,
        decreases n - i,
    {
        proof {
            let j = i as int;
            lemma_strs_len_split(all, j);
            lemma_enc_strs_len(all.take(j));
            lemma_enc_strs_len(all.skip(j));
            assert(all.skip(j)[0] == all[j]);
            assert(all[j] == strings@[j]@);
            lemma_enc_strs_len(all.skip(j).drop_first());
            assert(strs_len(all.skip(j)) >= 4 + all[j].len());
        }
        if strings[i].len() > 0x10000 {
            return false;
        }
        let newsl = sl + 4 + strings[i].len() as u64;
        proof {
            let j = i as int;
            lemma_strs_len_split(all.take(j + 1), j);
            assert(all.take(j + 1).take(j) =~= all.take(j));
            assert(all.take(j + 1).skip(j) =~= seq![all[j]]);
            lemma_strs_one(all[j]);
            lemma_strs_len_split(all, j + 1);
            lemma_enc_strs_len(all.skip(j + 1));
            assert(newsl == strs_len(all.take(j + 1)) <= strs_len(all));
        }
        if newsl > 0x10000 {
            return false;
        }
        sl = newsl;
        i = i + 1;
    }
    proof {
        assert(all.take(n as int) =~= all);
    }
    let pad = (4 - (sl % 4)) % 4;
    proof {
        assert(pad == pad4(sl as int));
    }
    let total: u64 = 20 + 4 * (n as u64) + sl + pad;
    total <= 0xFFFF
}

/// Copies a vector of byte strings.
#[verifier::loop_isolation(false)]
fn clone_strings(v: &Vec<Vec<u8>>) -> (r: Vec<Vec<u8>>)
    ensures
        ssv(r@) == ssv(v@),
{
    let mut r: Vec<Vec<u8>> = Vec::new();
    let n = v.len();
    let mut i: usize = 0;
    while i < n
        invariant
            i <= n,
            r@.len() == i,
            forall|k: int| 0 <= k < i ==> r@[k]@ == #[trigger] v@[k]@,
        decreases n - i,
    {
        let s = clone_bytes(&v[i]);
        r.push(s);
        i = i + 1;
    }
    proof {
        assert(ssv(r@) =~= ssv(v@));
    }
    r
}

/// A zero flag word for every entry of a type.
#[verifier::loop_isolation(false)]
fn zero_flags(n: usize) -> (r: Vec<u32>)
    ensures
        r@ == Seq::new(n as nat, |i: int| 0u32),
{
    let mut r: Vec<u32> = Vec::new();
    let mut i: usize = 0;
    while i < n
        invariant
            i <= n,
            r@ == Seq::new(i as nat, |q: int| 0u32),
        decreases n - i,
    {
        r.push(0);
        proof {
            assert(r@ =~= Seq::new(i as nat + 1, |q: int| 0u32));
        }
        i = i + 1;
    }
    r
}

/// Appends a well-formed chunk to a child list, keeping the running
/// serialized length within the 32-bit total length field.
pub(crate) fn push_kid(kids: &mut Vec<Chunk>, total: &mut u64, c: Chunk) -> (r: bool)
    requires
        wf(cv(c)),
        wf_children(cvs(old(kids)@)),
        *old(total) == enc_children(cvs(old(kids)@)).len(),
        *old(total) <= 0xFFFF_FFEF,
    ensures
        wf_children(cvs(final(kids)@)),
        *final(total) == enc_children(cvs(final(kids)@)).len(),
        *final(total) <= 0xFFFF_FFEF,
        r == (*old(total) + enc(cv(c)).len() <= 0xFFFF_FFEF),
        r ==> final(kids)@ == old(kids)@.push(c),
        !r ==> *final(kids) == *old(kids) && *final(total) == *old(total),
{
    let sz = c.size();
    if sz > 0xFFFF_FFEF - *total {
        return false;
    }
    proof {
        lemma_cvs_snoc(kids@, c);
        lemma_children_snoc(cvs(kids@), cv(c));
    }
    *total = *total + sz;
    kids.push(c);
    true
}

/// A child list's prefix, plus the next chunk, never outweighs the whole.
proof fn lemma_prefix_budget(full: Seq<ChunkV>, pre: Seq<ChunkV>, c: ChunkV, rest: Seq<ChunkV>)
    requires
        full == pre + (seq![c] + rest),
    ensures
        enc_children(pre).len() + enc(c).len() <= enc_children(full).len(),
{
    crate::chunk::lemma_enc_children_split(full, pre.len() as int);
    assert(full.take(pre.len() as int) =~= pre);
    assert(full.skip(pre.len() as int) =~= seq![c] + rest);
    assert((seq![c] + rest)[0] == c);
    assert((seq![c] + rest).drop_first() =~= rest);
    crate::chunk::lemma_enc_children_len(rest);
}

/// Builds the serialized form of one package: its pool, a type-spec chunk
/// per type and a table-type chunk per density variant.
#[verifier::loop_isolation(false)]
#[verifier::rlimit(100)]
fn build_package_chunk(pkg: &Package) -> (r: Result<Chunk, TableError>)
    requires
        pkg.inv(),
    ensures
        r matches Ok(c) ==> wf(cv(c)) && cv(c) == pkg_chunk_of(*pkg),
        r is Ok <==> pkg_fits(*pkg),
        r is Err ==> r == Err::<Chunk, _>(TableError::TooLarge),
{
    let ghost full = pkg_children_of(*pkg);
    if !pool_fits(&pkg.pool.strings) {
        return Err(TableError::TooLarge);
    }
    let mut kids: Vec<Chunk> = Vec::new();
    let mut total: u64 = 0;
    proof {
        assert(cvs(kids@) =~= Seq::<ChunkV>::empty());
    }
    let pool_chunk = Chunk::StringPool {
        utf8: pkg.pool.utf8,
        strings: clone_strings(&pkg.pool.strings),
    };
    let ghost pcg = pool_chunk;
    proof {
        assert(cv(pool_chunk) == pool_chunk_of(pkg.pool));
        assert(wf(cv(pool_chunk)));
        lemma_enc_len(cv(pool_chunk));
        assert(full =~= Seq::<ChunkV>::empty() + (seq![pool_chunk_of(pkg.pool)] + types_chunks(
            pkg.types@,
        )));
        lemma_prefix_budget(
            full,
            Seq::<ChunkV>::empty(),
            pool_chunk_of(pkg.pool),
            types_chunks(pkg.types@),
        );
    }
    let ghost kids0 = kids@;
    if !push_kid(&mut kids, &mut total, pool_chunk) {
        proof {
            assert(enc_children(full).len() > 0xFFFF_FFEF);
        }
        return Err(TableError::TooLarge);
    }
    proof {
        lemma_cvs_snoc_post(kids@, kids0, Seq::<ChunkV>::empty(), pcg, pool_chunk_of(pkg.pool));
        assert(pkg.types@.take(0int) =~= Seq::<TypeDef>::empty());
        assert(cvs(kids@) =~= seq![pool_chunk_of(pkg.pool)] + types_chunks(
            pkg.types@.take(0int),
        ));
    }
    let nt = pkg.types.len();
    let mut t: usize = 0;
    while t < nt
        invariant
            t <= nt,
            nt == pkg.types@.len(),
            wf_children(cvs(kids@)),
            total == enc_children(cvs(kids@)).len(),
            total <= 0xFFFF_FFEF,
            cvs(kids@) == seq![pool_chunk_of(pkg.pool)] + types_chunks(pkg.types@.take(t as int)),
            forall|q: int|
                0 <= q < t ==> (#[trigger] pkg.types@[q]).entry_names@.len() <= 16379,
            forall|q: int, w: int|
                0 <= q < t && 0 <= w < pkg.types@[q].variants@.len() ==> (
                #[trigger] pkg.types@[q].variants@[w]).values@.len() <= 5459,
        decreases nt - t,
    {
        let ghost pre0 = cvs(kids@);
        proof {
            // the remaining spec children, starting with this type's chunks
            lemma_types_chunks_split(pkg.types@, t as int);
            assert(pkg.types@.skip(t as int)[0] == pkg.types@[t as int]);
            assert(pkg.types@.skip(t as int).drop_first() =~= pkg.types@.skip(t as int + 1));
        }
        let ty = &pkg.types[t];
        if ty.entry_names.len() > 16379 {
            return Err(TableError::TooLarge);
        }
        let ghost tsv = ChunkV::TypeSpec {
            id: ty.id,
            flags: Seq::new(ty.entry_names@.len(), |i: int| 0u32),
        };
        let ts_chunk = Chunk::TypeSpec { id: ty.id, flags: zero_flags(ty.entry_names.len()) };
        proof {
            assert(cv(ts_chunk) == tsv);
            assert(wf(cv(ts_chunk)));
            lemma_enc_len(tsv);
            assert(type_chunks(pkg.types@[t as int]) == seq![tsv] + variant_chunks(
                ty.id,
                ty.name,
                ty.variants@,
            ));
            assert(full =~= pre0 + (seq![tsv] + (variant_chunks(ty.id, ty.name, ty.variants@)
                + types_chunks(pkg.types@.skip(t as int + 1)))));
            lemma_prefix_budget(
                full,
                pre0,
                tsv,
                variant_chunks(ty.id, ty.name, ty.variants@) + types_chunks(
                    pkg.types@.skip(t as int + 1),
                ),
            );
        }
        let ghost tsg = ts_chunk;
        let ghost kids_a = kids@;
        if !push_kid(&mut kids, &mut total, ts_chunk) {
            proof {
                assert(enc_children(full).len() > 0xFFFF_FFEF);
            }
            return Err(TableError::TooLarge);
        }
        proof {
            lemma_cvs_snoc_post(kids@, kids_a, pre0, tsg, tsv);
            assert(ty.variants@.take(0int) =~= Seq::<Variant>::empty());
            assert(variant_chunks(ty.id, ty.name, ty.variants@.take(0int)) == Seq::<
                ChunkV,
            >::empty());
            assert(cvs(kids@) =~= pre0 + seq![tsv] + variant_chunks(
                ty.id,
                ty.name,
                ty.variants@.take(0int),
            ));
        }
        let nv = ty.variants.len();
        let mut v: usize = 0;
        while v < nv
            invariant
                v <= nv,
                t < nt,
                nt == pkg.types@.len(),
                nv == pkg.types@[t as int].variants@.len(),
                wf_children(cvs(kids@)),
                total == enc_children(cvs(kids@)).len(),
                total <= 0xFFFF_FFEF,
                pkg.types@[t as int].entry_names@.len() <= 16379,
                cvs(kids@) == pre0 + seq![
                    ChunkV::TypeSpec {
                        id: pkg.types@[t as int].id,
                        flags: Seq::new(pkg.types@[t as int].entry_names@.len(), |i: int| 0u32),
                    },
                ] + variant_chunks(
                    pkg.types@[t as int].id,
                    pkg.types@[t as int].name,
                    pkg.types@[t as int].variants@.take(v as int),
                ),
                forall|w: int|
                    0 <= w < v ==> (#[trigger] pkg.types@[t as int].variants@[w]).values@.len()
                        <= 5459,
            decreases nv - v,
        {
            let ghost pre1 = cvs(kids@);
            let var = &pkg.types[t].variants[v];
            if var.values.len() > 5459 {
                return Err(TableError::TooLarge);
            }
            let ty2 = &pkg.types[t];
            let ghost ttv = ChunkV::TableType {
                id: ty2.id,
                name: ty2.name,
                density: var.density,
                entries: var.values@,
            };
            let tt_chunk = Chunk::TableType {
                id: ty2.id,
                name: ty2.name,
                density: var.density,
                entries: clone_entries(&var.values),
            };
            proof {
                assert(cv(tt_chunk) == ttv);
                assert(wf(cv(tt_chunk)));
                lemma_enc_len(ttv);
                lemma_types_chunks_split(pkg.types@, t as int);
                assert(pkg.types@.skip(t as int)[0] == pkg.types@[t as int]);
                assert(pkg.types@.skip(t as int).drop_first() =~= pkg.types@.skip(t as int + 1));
                lemma_variant_chunks_split(ty2.id, ty2.name, ty2.variants@, v as int);
                assert(ty2.variants@.skip(v as int)[0] == ty2.variants@[v as int]);
                assert(ty2.variants@.skip(v as int).drop_first() =~= ty2.variants@.skip(
                    v as int + 1,
                ));
                assert(full =~= pre1 + (seq![ttv] + (variant_chunks(
                    ty2.id,
                    ty2.name,
                    ty2.variants@.skip(v as int + 1),
                ) + types_chunks(pkg.types@.skip(t as int + 1)))));
                lemma_prefix_budget(
                    full,
                    pre1,
                    ttv,
                    variant_chunks(ty2.id, ty2.name, ty2.variants@.skip(v as int + 1))
                        + types_chunks(pkg.types@.skip(t as int + 1)),
                );
            }
            let ghost ttg = tt_chunk;
            let ghost kids_b = kids@;
            if !push_kid(&mut kids, &mut total, tt_chunk) {
                proof {
                    assert(enc_children(full).len() > 0xFFFF_FFEF);
                }
                return Err(TableError::TooLarge);
            }
            proof {
                lemma_cvs_snoc_post(kids@, kids_b, pre1, ttg, ttv);
                lemma_variant_chunks_split(ty2.id, ty2.name, ty2.variants@, v as int + 1);
                assert(ty2.variants@.take(v as int + 1).take(v as int) =~= ty2.variants@.take(
                    v as int,
                ));
                assert(ty2.variants@.take(v as int + 1).skip(v as int) =~= seq![
                    ty2.variants@[v as int],
                ]);
                lemma_variant_chunks_split(
                    ty2.id,
                    ty2.name,
                    ty2.variants@.take(v as int + 1),
                    v as int,
                );
                assert(variant_chunks(ty2.id, ty2.name, seq![ty2.variants@[v as int]]) =~= seq![
                    ttv,
                ]) by {
                    assert(seq![ty2.variants@[v as int]].drop_first() =~= Seq::<
                        Variant,
                    >::empty());
                }
                assert(cvs(kids@) =~= pre0 + seq![
                    ChunkV::TypeSpec {
                        id: pkg.types@[t as int].id,
                        flags: Seq::new(pkg.types@[t as int].entry_names@.len(), |i: int| 0u32),
                    },
                ] + variant_chunks(
                    pkg.types@[t as int].id,
                    pkg.types@[t as int].name,
                    pkg.types@[t as int].variants@.take(v as int + 1),
                ));
            }
            v = v + 1;
        }
        proof {
            let tyg = pkg.types@[t as int];
            assert(tyg.variants@.take(nv as int) =~= tyg.variants@);
            lemma_types_chunks_split(pkg.types@.take(t as int + 1), t as int);
            assert(pkg.types@.take(t as int + 1).take(t as int) =~= pkg.types@.take(t as int));
            assert(pkg.types@.take(t as int + 1).skip(t as int) =~= seq![tyg]);
            assert(types_chunks(seq![tyg]) =~= type_chunks(tyg)) by {
                assert(seq![tyg].drop_first() =~= Seq::<TypeDef>::empty());
            }
            assert(cvs(kids@) =~= seq![pool_chunk_of(pkg.pool)] + types_chunks(pkg.types@.take(
                t as int + 1,
            )));
        }
        t = t + 1;
    }
    proof {
        assert(pkg.types@.take(nt as int) =~= pkg.types@);
        assert(cvs(kids@) == full);
    }
    let pc = Chunk::Package { id: pkg.id, name: pkg.name, children: kids };
    proof {
        assert(cv(pc) == pkg_chunk_of(*pkg));
        assert(wf(cv(pc)));
        assert(pkg_fits(*pkg));
    }
    Ok(pc)
}

/// After a push, the chunk list's model is the old model plus the new
/// chunk's model.
proof fn lemma_cvs_snoc_post(kids: Seq<Chunk>, prev: Seq<Chunk>, pre: Seq<ChunkV>, ce: Chunk, c: ChunkV)
    requires
        kids == prev.push(ce),
        cvs(prev) == pre,
        cv(ce) == c,
    ensures
        cvs(kids) == pre + seq![c],
{
    lemma_cvs_snoc(prev, ce);
    assert(pre.push(c) =~= pre + seq![c]);
}

impl Table {
    /// Freezes the table and emits the encoding of its full chunk tree
    /// (`chunk_of`): one package chunk per package, each holding its pool,
    /// a type-spec per type and a table-type per density variant.  Emits
    /// exactly when the table fits the format's length fields; a
    /// finalized table refuses further merges and serializations.
    #[verifier::loop_isolation(false)]
    #[verifier::rlimit(100)]
    pub fn serialize(&mut self) -> (r: Result<Vec<u8>, TableError>)
        requires
            old(self).inv(),
        ensures
            final(self).inv(),
            old(self).finalized ==> r == Err::<Vec<u8>, _>(TableError::TableFinalized)
                && *final(self) == *old(self),
            r is Ok ==> final(self).finalized,
            match r {
                Ok(bytes) => bytes@ == enc(chunk_of(*old(self))) && wf(chunk_of(*old(self))),
                Err(e) => e == TableError::TableFinalized || e == TableError::TooLarge,
            },
            !old(self).finalized ==> (r is Ok <==> table_fits(*old(self))),
    {
        if self.finalized {
            return Err(TableError::TableFinalized);
        }
        let ghost full = pkgs_chunks(self.packages@);
        let np = self.packages.len();
        let mut kids: Vec<Chunk> = Vec::new();
        let mut total: u64 = 0;
        proof {
            assert(cvs(kids@) =~= Seq::<ChunkV>::empty());
            lemma_pkgs_chunks_split(self.packages@, 0);
            assert(self.packages@.take(0int) =~= Seq::<Package>::empty());
        }
        let mut p: usize = 0;
        while p < np
            invariant
                p <= np,
                np == self.packages@.len(),
                *self == *old(self),
                wf_children(cvs(kids@)),
                total == enc_children(cvs(kids@)).len(),
                total <= 0xFFFF_FFEF,
                cvs(kids@) == pkgs_chunks(self.packages@.take(p as int)),
                forall|q: int| 0 <= q < p ==> pkg_fits(#[trigger] self.packages@[q]),
            decreases np - p,
        {
            let ghost pre = cvs(kids@);
            let pc = match build_package_chunk(&self.packages[p]) {
                Ok(pc) => pc,
                Err(e) => {
                    proof {
                        assert(!pkg_fits(self.packages@[p as int]));
                        assert(!table_fits(*old(self)));
                    }
                    return Err(e);
                },
            };
            let ghost pcg2 = pc;
            let ghost kids_c = kids@;
            proof {
                lemma_enc_len(cv(pcg2));
                lemma_pkgs_chunks_split(self.packages@, p as int);
                assert(self.packages@.skip(p as int)[0] == self.packages@[p as int]);
                assert(self.packages@.skip(p as int).drop_first() =~= self.packages@.skip(
                    p as int + 1,
                ));
                assert(full =~= pre + (seq![pkg_chunk_of(self.packages@[p as int])] + pkgs_chunks(
                    self.packages@.skip(p as int + 1),
                )));
                lemma_prefix_budget(
                    full,
                    pre,
                    pkg_chunk_of(self.packages@[p as int]),
                    pkgs_chunks(self.packages@.skip(p as int + 1)),
                );
            }
            if !push_kid(&mut kids, &mut total, pc) {
                proof {
                    assert(enc_children(full).len() > 0xFFFF_FFEF);
                    assert(!table_fits(*old(self)));
                }
                return Err(TableError::TooLarge);
            }
            proof {
                lemma_cvs_snoc_post(
                    kids@,
                    kids_c,
                    pre,
                    pcg2,
                    pkg_chunk_of(self.packages@[p as int]),
                );
                lemma_pkgs_chunks_split(self.packages@.take(p as int + 1), p as int);
                assert(self.packages@.take(p as int + 1).take(p as int) =~= self.packages@.take(
                    p as int,
                ));
                assert(self.packages@.take(p as int + 1).skip(p as int) =~= seq![
                    self.packages@[p as int],
                ]);
                assert(pkgs_chunks(seq![self.packages@[p as int]]) =~= seq![
                    pkg_chunk_of(self.packages@[p as int]),
                ]) by {
                    assert(seq![self.packages@[p as int]].drop_first() =~= Seq::<
                        Package,
                    >::empty());
                }
                assert(cvs(kids@) =~= pkgs_chunks(self.packages@.take(p as int + 1)));
            }
            p = p + 1;
        }
        proof {
            assert(self.packages@.take(np as int) =~= self.packages@);
            assert(cvs(kids@) == full);
            assert(table_fits(*old(self)));
        }
        let table_chunk = Chunk::Table { children: kids };
        proof {
            assert(cv(table_chunk) == chunk_of(*old(self)));
            assert(wf(cv(table_chunk)));
        }
        let mut out: Vec<u8> = Vec::new();
        table_chunk.write(&mut out);
        self.finalized = true;
        proof {
            assert(out@ =~= enc(chunk_of(*old(self))));
        }
        Ok(out)
    }
}

} // verus!
