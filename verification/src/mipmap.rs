//! The mipmap compiler: allocates one table entry per supported density
//! bucket for a logical icon resource, as a package-shaped chunk ready to
//! merge, plus the list of output paths and pixel sizes the bitmap
//! rescaler must fill in.  Buckets always come in increasing density
//! order, so entry identifiers are assigned reproducibly.

use vstd::prelude::*;
use crate::chunk::{Chunk, ChunkV, cv, cvs, ResEntry, lemma_cvs_index};
use crate::pool::StringPool;
use crate::table::TYPE_STRING;

verus! {

/// A compiled mipmap family: the chunk to merge into a resource table and
/// the (path, pixel size) pairs the rescaler must produce.
pub struct Mipmap {
    pub chunk: Chunk,
    pub variants: Vec<(Vec<u8>, u32)>,
}

/// The density of a table-type chunk; zero for any other chunk.
pub open spec fn tt_density(c: ChunkV) -> u32 {
    match c {
        ChunkV::TableType { density, .. } => density,
        _ => 0,
    }
}

/// The name index of a table-type chunk; zero for any other chunk.
pub open spec fn tt_name(c: ChunkV) -> u32 {
    match c {
        ChunkV::TableType { name, .. } => name,
        _ => 0,
    }
}

/// The entries of a table-type chunk; empty for any other chunk.
pub open spec fn tt_entries(c: ChunkV) -> Seq<ResEntry> {
    match c {
        ChunkV::TableType { entries, .. } => entries,
        _ => Seq::empty(),
    }
}

/// The strings of a string-pool chunk; empty for any other chunk.
pub open spec fn pool_strings(c: ChunkV) -> Seq<Seq<u8>> {
    match c {
        ChunkV::StringPool { strings, .. } => strings,
        _ => Seq::empty(),
    }
}

/// The bytes of "mipmap".
pub open spec fn mipmap_name() -> Seq<u8> {
    seq![109u8, 105u8, 112u8, 109u8, 97u8, 112u8]
}

/// The density qualifier of bucket `k`: "mdpi", "hdpi", "xhdpi", "xxhdpi"
/// or "xxxhdpi".
pub open spec fn spec_qualifier(k: int) -> Seq<u8> {
    if k == 0 {
        seq![109u8, 100u8, 112u8, 105u8]
    } else if k == 1 {
        seq![104u8, 100u8, 112u8, 105u8]
    } else if k == 2 {
        seq![120u8, 104u8, 100u8, 112u8, 105u8]
    } else if k == 3 {
        seq![120u8, 120u8, 104u8, 100u8, 112u8, 105u8]
    } else {
        seq![120u8, 120u8, 120u8, 104u8, 100u8, 112u8, 105u8]
    }
}

/// The output path of bucket `k` for resource `name`:
/// "res/mipmap-" + qualifier + "/" + name + ".png".
pub open spec fn spec_path(name: Seq<u8>, k: int) -> Seq<u8> {
    seq![114u8, 101u8, 115u8, 47u8, 109u8, 105u8, 112u8, 109u8, 97u8, 112u8, 45u8]
        + spec_qualifier(k) + seq![47u8] + name + seq![46u8, 112u8, 110u8, 103u8]
}

/// Appends the bytes of "res/mipmap-".
fn push_prefix(out: &mut Vec<u8>)
    ensures
        final(out)@ == old(out)@ + seq![
            114u8, 101u8, 115u8, 47u8, 109u8, 105u8, 112u8, 109u8, 97u8, 112u8, 45u8,
        ],
{
    out.push(114);  // r
    out.push(101);  // e
    out.push(115);  // s
    out.push(47);  // /
    out.push(109);  // m
    out.push(105);  // i
    out.push(112);  // p
    out.push(109);  // m
    out.push(97);  // a
    out.push(112);  // p
    out.push(45);  // -
    proof {
        assert(out@ =~= old(out)@ + seq![
            114u8, 101u8, 115u8, 47u8, 109u8, 105u8, 112u8, 109u8, 97u8, 112u8, 45u8,
        ]);
    }
}

/// Appends the bytes of "dpi".
fn push_dpi(out: &mut Vec<u8>)
    ensures
        final(out)@ == old(out)@ + seq![100u8, 112u8, 105u8],
{
    out.push(100);  // d
    out.push(112);  // p
    out.push(105);  // i
    proof {
        assert(out@ =~= old(out)@ + seq![100u8, 112u8, 105u8]);
    }
}

/// Appends the density qualifier of bucket `k`.
#[verifier::loop_isolation(false)]
fn push_qualifier(out: &mut Vec<u8>, k: usize)
    requires
        k < 5,
    ensures
        final(out)@ == old(out)@ + spec_qualifier(k as int),
{
    if k == 0 {
        out.push(109);  // m
        push_dpi(out);
        proof {
            assert(out@ =~= old(out)@ + spec_qualifier(0));
        }
    } else {
        let mut x: usize = 1;
        while x < k
            invariant
                1 <= x <= k <= 4,
                out@ == old(out)@ + Seq::new((x - 1) as nat, |i: int| 120u8),
            decreases k - x,
        {
            out.push(120);  // x
            x = x + 1;
            proof {
                assert(out@ =~= old(out)@ + Seq::new((x - 1) as nat, |i: int| 120u8));
            }
        }
        out.push(104);  // h
        push_dpi(out);
        proof {
            if k == 1 {
                assert(out@ =~= old(out)@ + spec_qualifier(1));
            } else if k == 2 {
                assert(out@ =~= old(out)@ + spec_qualifier(2));
            } else if k == 3 {
                assert(out@ =~= old(out)@ + spec_qualifier(3));
            } else {
                assert(out@ =~= old(out)@ + spec_qualifier(4));
            }
        }
    }
}

/// Appends the bytes of ".png".
fn push_suffix(out: &mut Vec<u8>)
    ensures
        final(out)@ == old(out)@ + seq![46u8, 112u8, 110u8, 103u8],
{
    out.push(46);  // .
    out.push(112);  // p
    out.push(110);  // n
    out.push(103);  // g
    proof {
        assert(out@ =~= old(out)@ + seq![46u8, 112u8, 110u8, 103u8]);
    }
}

/// The bytes of "mipmap", the resource type of an icon family.
pub fn mipmap_type_name() -> (r: Vec<u8>)
    ensures
        r@ == mipmap_name(),
{
    let mut out: Vec<u8> = Vec::new();
    out.push(109);  // m
    out.push(105);  // i
    out.push(112);  // p
    out.push(109);  // m
    out.push(97);  // a
    out.push(112);  // p
    proof {
        assert(out@ =~= mipmap_name());
    }
    out
}

/// The output path of bucket `k` for resource `name`:
/// "res/mipmap-<qualifier>/<name>.png".
#[verifier::loop_isolation(false)]
fn bucket_path(name: &Vec<u8>, k: usize) -> (r: Vec<u8>)
    requires
        k < 5,
    ensures
        r@ == spec_path(name@, k as int),
{
    let mut out: Vec<u8> = Vec::new();
    push_prefix(&mut out);
    push_qualifier(&mut out, k);
    out.push(47);  // /
    let ghost head = out@;
    let mut i: usize = 0;
    let n = name.len();
    while i < n
        invariant
            i <= n,
            out@ == head + name@.take(i as int),
        decreases n - i,
    {
        out.push(name[i]);
        proof {
            assert(out@ =~= head + name@.take(i as int + 1));
        }
        i = i + 1;
    }
    proof {
        assert(name@.take(n as int) =~= name@);
    }
    push_suffix(&mut out);
    proof {
        assert(out@ =~= spec_path(name@, k as int));
    }
    out
}

/// The platform's density buckets, in increasing density order, with the
/// icon pixel size each one requires.
fn bucket(k: usize) -> (r: (u32, u32))
    requires
        k < 5,
    ensures
        r == spec_bucket(k as int),
{
    if k == 0 {
        (160, 48)
    } else if k == 1 {
        (240, 72)
    } else if k == 2 {
        (320, 96)
    } else if k == 3 {
        (480, 144)
    } else {
        (640, 192)
    }
}

/// Density and pixel size of bucket `k`.
pub open spec fn spec_bucket(k: int) -> (u32, u32) {
    if k == 0 {
        (160u32, 48u32)
    } else if k == 1 {
        (240u32, 72u32)
    } else if k == 2 {
        (320u32, 96u32)
    } else if k == 3 {
        (480u32, 144u32)
    } else {
        (640u32, 192u32)
    }
}

/// One compiled bucket chunk: a table-type chunk for bucket `q` whose one
/// entry names the resource and points at that bucket's path, all through
/// the given pool.
pub open spec fn kid_ok(c: ChunkV, pl: Seq<Seq<u8>>, name: Seq<u8>, q: int) -> bool {
    &&& c is TableType
    &&& tt_density(c) == spec_bucket(q).0
    &&& tt_entries(c).len() == 1
    &&& tt_entries(c)[0].typ == TYPE_STRING
    &&& (tt_name(c) as int) < pl.len()
    &&& pl[tt_name(c) as int] == mipmap_name()
    &&& (tt_entries(c)[0].name as int) < pl.len()
    &&& pl[tt_entries(c)[0].name as int] == name
    &&& (tt_entries(c)[0].data as int) < pl.len()
    &&& pl[tt_entries(c)[0].data as int] == spec_path(name, q)
}

/// The shape of a compiled family chunk's children: a string pool first,
/// then one table-type chunk per density bucket in increasing order, each
/// holding exactly one entry whose name is the resource name and whose
/// string value is that bucket's output path, all through the pool.
pub open spec fn family_chunk_ok(children: Seq<ChunkV>, name: Seq<u8>) -> bool {
    let pl = pool_strings(children[0]);
    &&& children.len() == 6
    &&& children[0] is StringPool
    &&& forall|k: int|
        1 <= k < 6 ==> {
            let c = #[trigger] children[k];
            &&& c is TableType
            &&& tt_density(c) == spec_bucket(k - 1).0
            &&& tt_entries(c).len() == 1
            &&& tt_entries(c)[0].typ == TYPE_STRING
            &&& (tt_name(c) as int) < pl.len()
            &&& pl[tt_name(c) as int] == mipmap_name()
            &&& (tt_entries(c)[0].name as int) < pl.len()
            &&& pl[tt_entries(c)[0].name as int] == name
            &&& (tt_entries(c)[0].data as int) < pl.len()
            &&& pl[tt_entries(c)[0].data as int] == spec_path(name, k - 1)
        }
}

/// Compiles an icon family named `name`: one entry per density bucket,
/// each holding a file reference to its output path, gathered under the
/// "mipmap" resource type.  Buckets are emitted in increasing density
/// order, in the chunk and in the variant list alike.
#[verifier::loop_isolation(false)]
#[verifier::rlimit(60)]
pub fn compile_mipmap(name: &Vec<u8>) -> (r: Result<Mipmap, crate::manifest::CompileError>)
    ensures
        r is Ok,
        r matches Ok(m) ==> {
            &&& m.variants@.len() == 5
            &&& forall|k: int|
                0 <= k < 5 ==> (#[trigger] m.variants@[k]).1 == spec_bucket(k).1
                    && m.variants@[k].0@ == spec_path(name@, k)
            &&& forall|i: int, j: int|
                0 <= i < j < 5 ==> m.variants@[i].1 < m.variants@[j].1
            &&& cv(m.chunk) matches ChunkV::Package { children, .. } && family_chunk_ok(
                children,
                name@,
            ) && (forall|i: int, j: int|
                1 <= i < j < 6 ==> tt_density(children[i]) < tt_density(children[j]))
        },
{
    let mut pool = StringPool::new(true);
    let tn_idx = pool.intern(mipmap_type_name());
    let mut name_copy: Vec<u8> = Vec::new();
    let n = name.len();
    let mut i: usize = 0;
    while i < n
        invariant
            i <= n,
            name_copy@ == name@.take(i as int),
        decreases n - i,
    {
        name_copy.push(name[i]);
        proof {
            assert(name_copy@ =~= name@.take(i as int + 1));
        }
        i = i + 1;
    }
    proof {
        assert(name@.take(n as int) =~= name@);
    }
    let en_idx = pool.intern(name_copy);
    let mut kids: Vec<Chunk> = Vec::new();
    let mut variants: Vec<(Vec<u8>, u32)> = Vec::new();
    let mut k: usize = 0;
    while k < 5
        invariant
            k <= 5,
            pool.inv(),
            pool.strs().len() <= 2 + k,
            (tn_idx as int) < pool.strs().len(),
            pool.strs()[tn_idx as int] == mipmap_name(),
            (en_idx as int) < pool.strs().len(),
            pool.strs()[en_idx as int] == name@,
            variants@.len() == k,
            forall|q: int|
                0 <= q < k ==> (#[trigger] variants@[q]).1 == spec_bucket(q).1 && variants@[q].0@
                    == spec_path(name@, q),
            kids@.len() == k,
            forall|q: int|
                0 <= q < k ==> kid_ok(cv(#[trigger] kids@[q]), pool.strs(), name@, q),
        decreases 5 - k,
    {
        let (density, size) = bucket(k);
        let path = bucket_path(name, k);
        variants.push((bucket_path(name, k), size));
        let ghost pool_before = pool;
        let p_idx = pool.intern(path);
        let mut entries: Vec<ResEntry> = Vec::new();
        entries.push(ResEntry { name: en_idx as u32, typ: TYPE_STRING, data: p_idx as u32 });
        let tt = Chunk::TableType { id: 0, name: tn_idx as u32, density, entries };
        kids.push(tt);
        proof {
            assert(entries@ =~= seq![
                ResEntry { name: en_idx as u32, typ: TYPE_STRING, data: p_idx as u32 },
            ]);
            assert(kid_ok(cv(tt), pool.strs(), name@, k as int));
            assert forall|q: int| 0 <= q < k implies kid_ok(
                cv(#[trigger] kids@[q]),
                pool.strs(),
                name@,
                q,
            ) by {
                assert(kid_ok(cv(kids@[q]), pool_before.strs(), name@, q));
            }
        }
        k = k + 1;
    }
    let ghost final_pool = pool.strs();
    let mut children: Vec<Chunk> = Vec::new();
    children.push(pool.to_chunk());
    proof {
        assert(pool_strings(cv(children@[0])) == final_pool);
        assert(children@[0] is StringPool);
    }
    let ghost kids0 = kids@;
    let mut j: usize = 0;
    while j < 5
        invariant
            j <= 5,
            kids0.len() == 5,
            kids@ == kids0.skip(j as int),
            children@.len() == j + 1,
            children@[0] is StringPool,
            pool_strings(cv(children@[0])) == final_pool,
            forall|q: int| 0 <= q < 5 ==> kid_ok(cv(#[trigger] kids0[q]), final_pool, name@, q),
            forall|q: int|
                1 <= q < j + 1 ==> kid_ok(cv(#[trigger] children@[q]), final_pool, name@, q - 1),
        decreases 5 - j,
    {
        proof {
            assert(kids@[0] == kids0[j as int]);
        }
        let c = kids.remove(0);
        children.push(c);
        proof {
            assert(kids@ =~= kids0.skip(j as int + 1));
        }
        j = j + 1;
    }
    let chunk = Chunk::Package { id: 0, name: 0, children };
    proof {
        let cc = cvs(children@);
        lemma_cvs_index(children@, 0);
        assert(cc[0] is StringPool && pool_strings(cc[0]) == final_pool);
        assert forall|q: int| 1 <= q < 6 implies kid_ok(
            #[trigger] cc[q],
            final_pool,
            name@,
            q - 1,
        ) by {
            lemma_cvs_index(children@, q);
        }
        assert(family_chunk_ok(cc, name@));
    }
    Ok(Mipmap { chunk, variants })
}

} // verus!
