//! The manifest compiler: turns a structured document tree into a binary
//! XML chunk tree, interning names into a fresh string pool and resolving
//! symbolic resource references through a finished resource table.

use vstd::prelude::*;
use crate::chunk::{
    Chunk, ChunkV, cv, cvs, enc, enc_children, lemma_children_snoc, lemma_cvs_index,
    lemma_cvs_snoc, lemma_enc_children_one, lemma_enc_len, lemma_enc_strs_len,
    lemma_strs_len_split, lemma_strs_one, pool_hdr_len, strs_len, wf, wf_children,
};
use crate::mipmap::pool_strings;
use crate::pool::{pool_extends, StringPool};
use crate::table::{
    clone_bytes, pool_fits, push_kid, spec_resolve, Table, TYPE_INT_BOOLEAN, TYPE_INT_DEC,
    TYPE_REFERENCE, TYPE_STRING,
};

verus! {

/// A typed attribute value of the logical document.
pub enum AttrValue {
    /// A plain string.
    Str(Vec<u8>),
    /// A reference to a table resource, by type name and entry name.
    Reference(Vec<u8>, Vec<u8>),
    /// A decimal integer.
    Int(u32),
    /// A boolean.
    Bool(bool),
}

/// One attribute: an optional namespace (empty for none), a name and a
/// typed value.
pub struct Attr {
    pub ns: Vec<u8>,
    pub name: Vec<u8>,
    pub value: AttrValue,
}

/// One element of the logical document tree.
pub struct Element {
    pub ns: Vec<u8>,
    pub name: Vec<u8>,
    pub attrs: Vec<Attr>,
    pub children: Vec<Element>,
}

/// Why a compilation was rejected.
#[derive(Debug, Clone, Copy, PartialEq, Eq, Structural)]
pub enum CompileError {
    /// An attribute references a resource the table does not hold.
    UnresolvedReference,
    /// A pool or chunk exceeds the format's length fields.
    TooLarge,
}

/// Whether one attribute's value is compilable against `t`: a reference
/// must name a resource the table holds.
pub open spec fn attr_ok(a: Attr, t: Table) -> bool {
    match a.value {
        AttrValue::Reference(tn, en) => spec_resolve(t, tn@, en@) is Some,
        _ => true,
    }
}

/// Whether every reference in the element tree resolves in `t`.
pub open spec fn all_refs_resolve(e: Element, t: Table) -> bool
    decreases e,
{
    (forall|i: int| 0 <= i < e.attrs@.len() ==> attr_ok(#[trigger] e.attrs@[i], t)) && (forall|
        k: int,
    |
        0 <= k < e.children@.len() ==> all_refs_resolve(#[trigger] e.children@[k], t))
}

// --- the compiled form, as data -----------------------------------------

/// One chunk of the compiled document, with names and values spelled out:
/// what the corresponding output chunk must hold, up to pool indices.
pub enum ShapeV {
    Start { ns: Seq<u8>, name: Seq<u8> },
    StrAttr { ns: Seq<u8>, name: Seq<u8>, s: Seq<u8> },
    RefAttr { ns: Seq<u8>, name: Seq<u8>, id: u32 },
    IntAttr { ns: Seq<u8>, name: Seq<u8>, v: u32 },
    BoolAttr { ns: Seq<u8>, name: Seq<u8>, v: bool },
    End { ns: Seq<u8>, name: Seq<u8> },
}

/// The identifier a reference compiles to.
pub open spec fn resolved_id(t: Table, tn: Seq<u8>, en: Seq<u8>) -> u32 {
    match spec_resolve(t, tn, en) {
        Some(id) => id,
        None => 0,
    }
}

pub open spec fn attr_shape(a: Attr, t: Table) -> ShapeV {
    match a.value {
        AttrValue::Str(s) => ShapeV::StrAttr { ns: a.ns@, name: a.name@, s: s@ },
        AttrValue::Reference(tn, en) => ShapeV::RefAttr {
            ns: a.ns@,
            name: a.name@,
            id: resolved_id(t, tn@, en@),
        },
        AttrValue::Int(v) => ShapeV::IntAttr { ns: a.ns@, name: a.name@, v },
        AttrValue::Bool(v) => ShapeV::BoolAttr { ns: a.ns@, name: a.name@, v },
    }
}

/// The chunks a document compiles to, in order: a start tag, one chunk
/// per attribute, the children's chunks, an end tag.
pub open spec fn elem_shapes(e: Element, t: Table) -> Seq<ShapeV>
    decreases e,
{
    seq![ShapeV::Start { ns: e.ns@, name: e.name@ }] + e.attrs@.map_values(
        |a: Attr| attr_shape(a, t),
    ) + kids_shapes(e.children@, t) + seq![ShapeV::End { ns: e.ns@, name: e.name@ }]
}

pub open spec fn kids_shapes(es: Seq<Element>, t: Table) -> Seq<ShapeV>
    decreases es,
{
    if es.len() == 0 {
        Seq::empty()
    } else {
        elem_shapes(es[0], t) + kids_shapes(es.drop_first(), t)
    }
}

/// Pool index `i` denotes exactly the bytes `s`.
pub open spec fn pooled(pl: Seq<Seq<u8>>, i: u32, s: Seq<u8>) -> bool {
    (i as int) < pl.len() && pl[i as int] == s
}

/// An output chunk realizes a shape through the pool: names via pool
/// indices, values with the exact type tag and data word.
pub open spec fn shape_match(c: ChunkV, sh: ShapeV, pl: Seq<Seq<u8>>) -> bool {
    match sh {
        ShapeV::Start { ns, name } => c matches ChunkV::XmlStartElement { ns: ni, name: mi }
            && pooled(pl, ni, ns) && pooled(pl, mi, name),
        ShapeV::StrAttr { ns, name, s } => c matches ChunkV::XmlAttribute {
            ns: ni,
            name: mi,
            raw,
            typ,
            data,
        } && pooled(pl, ni, ns) && pooled(pl, mi, name) && typ == TYPE_STRING && pooled(
            pl,
            data,
            s,
        ) && raw == data,
        ShapeV::RefAttr { ns, name, id } => c matches ChunkV::XmlAttribute {
            ns: ni,
            name: mi,
            raw,
            typ,
            data,
        } && pooled(pl, ni, ns) && pooled(pl, mi, name) && typ == TYPE_REFERENCE && data == id
            && raw == 0xFFFF_FFFFu32,
        ShapeV::IntAttr { ns, name, v } => c matches ChunkV::XmlAttribute {
            ns: ni,
            name: mi,
            raw,
            typ,
            data,
        } && pooled(pl, ni, ns) && pooled(pl, mi, name) && typ == TYPE_INT_DEC && data == v && raw
            == 0xFFFF_FFFFu32,
        ShapeV::BoolAttr { ns, name, v } => c matches ChunkV::XmlAttribute {
            ns: ni,
            name: mi,
            raw,
            typ,
            data,
        } && pooled(pl, ni, ns) && pooled(pl, mi, name) && typ == TYPE_INT_BOOLEAN && data == (
        if v {
            0xFFFF_FFFFu32
        } else {
            0u32
        }) && raw == 0xFFFF_FFFFu32,
        ShapeV::End { ns, name } => c matches ChunkV::XmlEndElement { ns: ni, name: mi } && pooled(
            pl,
            ni,
            ns,
        ) && pooled(pl, mi, name),
    }
}

/// A shape stays matched when the pool only grows at the end.
proof fn lemma_shape_match_extend(c: ChunkV, sh: ShapeV, pl1: Seq<Seq<u8>>, pl2: Seq<Seq<u8>>)
    requires
        shape_match(c, sh, pl1),
        pl1.len() <= pl2.len(),
        forall|i: int| 0 <= i < pl1.len() ==> pl2[i] == #[trigger] pl1[i],
    ensures
        shape_match(c, sh, pl2),
{
}

// --- size measures -------------------------------------------------------

/// Bytes an attribute can add to the pool's string data region.
pub open spec fn attr_bytes(a: Attr) -> int {
    8 + a.ns@.len() + a.name@.len() + match a.value {
        AttrValue::Str(s) => 4 + s@.len() as int,
        _ => 0int,
    }
}

pub open spec fn attrs_bytes(attrs: Seq<Attr>) -> int
    decreases attrs.len(),
{
    if attrs.len() == 0 {
        0
    } else {
        attr_bytes(attrs[0]) + attrs_bytes(attrs.drop_first())
    }
}

/// Bytes an element tree can add to the pool's string data region.
pub open spec fn elem_bytes(e: Element) -> int
    decreases e,
{
    8 + e.ns@.len() + e.name@.len() + attrs_bytes(e.attrs@) + kids_bytes(e.children@)
}

pub open spec fn kids_bytes(es: Seq<Element>) -> int
    decreases es,
{
    if es.len() == 0 {
        0
    } else {
        elem_bytes(es[0]) + kids_bytes(es.drop_first())
    }
}

/// A document comfortably within the format's length fields: its pool
/// stays under the 16-bit header length and its chunk count under the
/// 32-bit total length.
pub open spec fn doc_small(e: Element) -> bool {
    elem_bytes(e) <= 0x7000 && elem_shapes_len(e) <= 0x100000
}

/// The number of chunks a document compiles to.
pub open spec fn elem_shapes_len(e: Element) -> int
    decreases e,
{
    2 + e.attrs@.len() + kids_shapes_len(e.children@)
}

pub open spec fn kids_shapes_len(es: Seq<Element>) -> int
    decreases es,
{
    if es.len() == 0 {
        0
    } else {
        elem_shapes_len(es[0]) + kids_shapes_len(es.drop_first())
    }
}

proof fn lemma_shapes_len(e: Element, t: Table)
    ensures
        elem_shapes(e, t).len() == elem_shapes_len(e),
        elem_shapes_len(e) >= 2,
    decreases e, 1int,
{
    lemma_kids_shapes_len(e.children@, t);
}

proof fn lemma_kids_shapes_len(es: Seq<Element>, t: Table)
    ensures
        kids_shapes(es, t).len() == kids_shapes_len(es),
        kids_shapes_len(es) >= 0,
    decreases es, 2int,
{
    if es.len() != 0 {
        lemma_shapes_len(es[0], t);
        lemma_kids_shapes_len(es.drop_first(), t);
    }
}

proof fn lemma_attrs_bytes_nonneg(attrs: Seq<Attr>)
    ensures
        attrs_bytes(attrs) >= 0,
    decreases attrs.len(),
{
    if attrs.len() != 0 {
        lemma_attrs_bytes_nonneg(attrs.drop_first());
    }
}

proof fn lemma_elem_bytes_nonneg(e: Element)
    ensures
        elem_bytes(e) >= 8,
    decreases e, 1int,
{
    lemma_attrs_bytes_nonneg(e.attrs@);
    lemma_kids_bytes_nonneg(e.children@);
}

proof fn lemma_kids_bytes_nonneg(es: Seq<Element>)
    ensures
        kids_bytes(es) >= 0,
    decreases es, 2int,
{
    if es.len() != 0 {
        lemma_elem_bytes_nonneg(es[0]);
        lemma_kids_bytes_nonneg(es.drop_first());
    }
}

proof fn lemma_attrs_bytes_split(attrs: Seq<Attr>, i: int)
    requires
        0 <= i <= attrs.len(),
    ensures
        attrs_bytes(attrs) == attrs_bytes(attrs.take(i)) + attrs_bytes(attrs.skip(i)),
    decreases i,
{
    if i == 0 {
        assert(attrs.take(0) =~= Seq::<Attr>::empty());
        assert(attrs.skip(0) =~= attrs);
    } else {
        lemma_attrs_bytes_split(attrs.drop_first(), i - 1);
        assert(attrs.drop_first().take(i - 1) =~= attrs.take(i).drop_first());
        assert(attrs.drop_first().skip(i - 1) =~= attrs.skip(i));
        assert(attrs.take(i)[0] == attrs[0]);
    }
}

proof fn lemma_kids_split(es: Seq<Element>, t: Table, i: int)
    requires
        0 <= i <= es.len(),
    ensures
        kids_bytes(es) == kids_bytes(es.take(i)) + kids_bytes(es.skip(i)),
        kids_shapes(es, t) == kids_shapes(es.take(i), t) + kids_shapes(es.skip(i), t),
        kids_shapes_len(es) == kids_shapes_len(es.take(i)) + kids_shapes_len(es.skip(i)),
    decreases i,
{
    if i == 0 {
        assert(es.take(0) =~= Seq::<Element>::empty());
        assert(es.skip(0) =~= es);
        assert(kids_shapes(es, t) =~= kids_shapes(es.take(0), t) + kids_shapes(es.skip(0), t));
    } else {
        lemma_kids_split(es.drop_first(), t, i - 1);
        assert(es.drop_first().take(i - 1) =~= es.take(i).drop_first());
        assert(es.drop_first().skip(i - 1) =~= es.skip(i));
        assert(es.take(i)[0] == es[0]);
        assert(kids_shapes(es, t) =~= kids_shapes(es.take(i), t) + kids_shapes(es.skip(i), t));
    }
}

/// Interning grows the string data region by at most one length-prefixed
/// entry, and never shrinks it.
proof fn lemma_intern_growth(before: Seq<Seq<u8>>, after: Seq<Seq<u8>>, s: Seq<u8>)
    requires
        after == before || after == before.push(s),
    ensures
        strs_len(before) <= strs_len(after) <= strs_len(before) + 4 + s.len(),
{
    if after == before.push(s) {
        lemma_strs_len_split(after, before.len() as int);
        assert(after.take(before.len() as int) =~= before);
        assert(after.skip(before.len() as int) =~= seq![s]);
        lemma_strs_one(s);
    }
}

// --- the compiler --------------------------------------------------------

/// Emits the chunks of one element: a start tag, one attribute chunk per
/// attribute, the children, an end tag.  Interned names land in `pool`;
/// chunks already in `out` are left untouched.
#[verifier::loop_isolation(false)]
#[verifier::rlimit(100)]
fn compile_element(e: &Element, t: &Table, pool: &mut StringPool, out: &mut Vec<Chunk>) -> (r:
    Result<(), CompileError>)
    requires
        t.inv(),
        old(pool).inv(),
    ensures
        final(pool).inv(),
        pool_extends(*old(pool), *final(pool)),
        strs_len(final(pool).strs()) <= strs_len(old(pool).strs()) + elem_bytes(*e),
        final(out)@.len() >= old(out)@.len(),
        final(out)@.len() <= old(out)@.len() + elem_shapes_len(*e),
        final(out)@.take(old(out)@.len() as int) == old(out)@,
        r is Ok ==> all_refs_resolve(*e, *t) && final(out)@.len() == old(out)@.len()
            + elem_shapes(*e, *t).len() && (forall|i: int|
            0 <= i < elem_shapes(*e, *t).len() ==> shape_match(
                cv(final(out)@[old(out)@.len() + i]),
                #[trigger] elem_shapes(*e, *t)[i],
                final(pool).strs(),
            )),
        r == Err::<(), _>(CompileError::UnresolvedReference) ==> !all_refs_resolve(*e, *t),
        r == Err::<(), _>(CompileError::TooLarge) ==> strs_len(old(pool).strs()) + elem_bytes(*e)
            > 0x8000,
        all_refs_resolve(*e, *t) && strs_len(old(pool).strs()) + elem_bytes(*e) <= 0x8000 ==> r
            is Ok,
    decreases *e,
{
    proof {
        lemma_enc_strs_len(pool.strs());
        lemma_attrs_bytes_nonneg(e.attrs@);
        lemma_kids_bytes_nonneg(e.children@);
        lemma_shapes_len(*e, *t);
        lemma_kids_shapes_len(e.children@, *t);
    }
    let base = out.len();
    let ghost shapes = elem_shapes(*e, *t);
    let ghost pre = seq![ShapeV::Start { ns: e.ns@, name: e.name@ }] + e.attrs@.map_values(
        |a: Attr| attr_shape(a, *t),
    );
    if pool.strings.len() >= 0x4000 {
        proof {
            assert(strs_len(old(pool).strs()) >= 4 * 0x4000);
            assert(strs_len(old(pool).strs()) + elem_bytes(*e) > 0x8000);
            assert(out@.take(base as int) =~= out@);
        }
        return Err(CompileError::TooLarge);
    }
    let ghost p0 = *pool;
    let ns_idx = pool.intern(clone_bytes(&e.ns)) as u32;
    let ghost p1 = *pool;
    let name_idx = pool.intern(clone_bytes(&e.name)) as u32;
    proof {
        lemma_intern_growth(p0.strs(), p1.strs(), e.ns@);
        lemma_intern_growth(p1.strs(), pool.strs(), e.name@);
        assert(pool.strs()[ns_idx as int] == e.ns@);
    }
    out.push(Chunk::XmlStartElement { ns: ns_idx, name: name_idx });
    proof {
        assert(shape_match(
            cv(out@[base as int]),
            ShapeV::Start { ns: e.ns@, name: e.name@ },
            pool.strs(),
        ));
    }
    let na = e.attrs.len();
    let mut i: usize = 0;
    while i < na
        invariant
            i <= na,
            na == e.attrs@.len(),
            pool.inv(),
            pool_extends(*old(pool), *pool),
            strs_len(pool.strs()) <= strs_len(old(pool).strs()) + 8 + e.ns@.len() + e.name@.len()
                + attrs_bytes(e.attrs@.take(i as int)),
            out@.len() == base + 1 + i,
            out@.take(base as int) == old(out)@,
            (ns_idx as int) < pool.strs().len(),
            pool.strs()[ns_idx as int] == e.ns@,
            (name_idx as int) < pool.strs().len(),
            pool.strs()[name_idx as int] == e.name@,
            forall|q: int|
                0 <= q < 1 + i ==> shape_match(
                    cv(out@[base + q]),
                    #[trigger] pre[q],
                    pool.strs(),
                ),
            forall|q: int| 0 <= q < i ==> attr_ok(#[trigger] e.attrs@[q], *t),
        decreases na - i,
    {
        proof {
            lemma_attrs_bytes_split(e.attrs@.take(i as int + 1), i as int);
            assert(e.attrs@.take(i as int + 1).take(i as int) =~= e.attrs@.take(i as int));
            assert(e.attrs@.take(i as int + 1).skip(i as int) =~= seq![e.attrs@[i as int]]);
            assert(attrs_bytes(seq![e.attrs@[i as int]]) == attr_bytes(e.attrs@[i as int])) by {
                assert(seq![e.attrs@[i as int]][0] == e.attrs@[i as int]);
                assert(seq![e.attrs@[i as int]].drop_first() =~= Seq::<Attr>::empty());
                assert(attrs_bytes(Seq::<Attr>::empty()) == 0);
            }
            lemma_attrs_bytes_split(e.attrs@, i as int + 1);
            lemma_attrs_bytes_nonneg(e.attrs@.skip(i as int + 1));
            lemma_enc_strs_len(pool.strs());
        }
        if pool.strings.len() >= 0x4000 {
            proof {
                lemma_enc_strs_len(pool.strs());
                assert(strs_len(pool.strs()) >= 4 * 0x4000);
                lemma_kids_bytes_nonneg(e.children@);
                lemma_attrs_bytes_split(e.attrs@, i as int);
                lemma_attrs_bytes_nonneg(e.attrs@.skip(i as int));
                assert(strs_len(old(pool).strs()) + elem_bytes(*e) > 0x8000);
            }
            return Err(CompileError::TooLarge);
        }
        let a = &e.attrs[i];
        let ghost pa = *pool;
        let ans = pool.intern(clone_bytes(&a.ns)) as u32;
        let ghost pb = *pool;
        let aname = pool.intern(clone_bytes(&a.name)) as u32;
        proof {
            lemma_intern_growth(pa.strs(), pb.strs(), a.ns@);
            lemma_intern_growth(pb.strs(), pool.strs(), a.name@);
        }
        let (raw, typ, data) = match &a.value {
            AttrValue::Str(s) => {
                let ghost pc = *pool;
                let si = pool.intern(clone_bytes(s)) as u32;
                proof {
                    lemma_intern_growth(pc.strs(), pool.strs(), s@);
                }
                (si, TYPE_STRING, si)
            },
            AttrValue::Reference(tn, en) => {
                match t.resolve(tn, en) {
                    Some(id) => (0xFFFF_FFFF, TYPE_REFERENCE, id),
                    None => {
                        proof {
                            assert(!attr_ok(e.attrs@[i as int], *t));
                            assert(!all_refs_resolve(*e, *t));
                            assert(out@.take(base as int) == old(out)@);
                            assert(out@.len() <= base + elem_shapes_len(*e));
                        }
                        return Err(CompileError::UnresolvedReference);
                    },
                }
            },
            AttrValue::Int(v) => (0xFFFF_FFFF, TYPE_INT_DEC, *v),
            AttrValue::Bool(v) => (
                0xFFFF_FFFF,
                TYPE_INT_BOOLEAN,
                if *v {
                    0xFFFF_FFFF
                } else {
                    0
                },
            ),
        };
        out.push(Chunk::XmlAttribute { ns: ans, name: aname, raw, typ, data });
        proof {
            assert(out@.take(base as int) =~= old(out)@);
            let sh = attr_shape(e.attrs@[i as int], *t);
            assert(pre[1 + i as int] == sh) by {
                assert(e.attrs@.map_values(|a: Attr| attr_shape(a, *t))[i as int] == sh);
            }
            assert(shape_match(cv(out@[base + 1 + i as int]), sh, pool.strs()));
            assert forall|q: int| 0 <= q < 1 + i implies shape_match(
                cv(out@[base + q]),
                #[trigger] pre[q],
                pool.strs(),
            ) by {
                assert(out@[base + q] == out@.take(out@.len() - 1)[base + q]);
                lemma_shape_match_extend(cv(out@[base + q]), pre[q], pa.strs(), pool.strs());
            }
        }
        i = i + 1;
    }
    proof {
        assert(e.attrs@.take(na as int) =~= e.attrs@);
    }
    let nc = e.children.len();
    let mut k: usize = 0;
    while k < nc
        invariant
            k <= nc,
            nc == e.children@.len(),
            pool.inv(),
            pool_extends(*old(pool), *pool),
            strs_len(pool.strs()) <= strs_len(old(pool).strs()) + 8 + e.ns@.len() + e.name@.len()
                + attrs_bytes(e.attrs@) + kids_bytes(e.children@.take(k as int)),
            out@.len() == base + pre.len() + kids_shapes(e.children@.take(k as int), *t).len(),
            out@.take(base as int) == old(out)@,
            (ns_idx as int) < pool.strs().len(),
            pool.strs()[ns_idx as int] == e.ns@,
            (name_idx as int) < pool.strs().len(),
            pool.strs()[name_idx as int] == e.name@,
            pre.len() == 1 + na,
            forall|q: int|
                0 <= q < pre.len() + kids_shapes(e.children@.take(k as int), *t).len()
                    ==> shape_match(
                    cv(out@[base + q]),
                    #[trigger] (pre + kids_shapes(e.children@.take(k as int), *t))[q],
                    pool.strs(),
                ),
            forall|q: int| 0 <= q < na ==> attr_ok(#[trigger] e.attrs@[q], *t),
            forall|q: int| 0 <= q < k ==> all_refs_resolve(#[trigger] e.children@[q], *t),
        decreases nc - k,
    {
        let ghost pool_in = *pool;
        let ghost out_in = out@;
        let ghost done = kids_shapes(e.children@.take(k as int), *t);
        proof {
            lemma_kids_split(e.children@, *t, k as int);
            lemma_kids_split(e.children@, *t, k as int + 1);
            assert(e.children@.skip(k as int)[0] == e.children@[k as int]);
            assert(e.children@.skip(k as int).drop_first() =~= e.children@.skip(k as int + 1));
            lemma_elem_bytes_nonneg(e.children@[k as int]);
            lemma_kids_bytes_nonneg(e.children@.skip(k as int + 1));
            lemma_kids_shapes_len(e.children@.skip(k as int + 1), *t);
            lemma_shapes_len(e.children@[k as int], *t);
        }
        match compile_element(&e.children[k], t, pool, out) {
            Ok(()) => {},
            Err(err) => {
                proof {
                    if err == CompileError::UnresolvedReference {
                        assert(!all_refs_resolve(e.children@[k as int], *t));
                        assert(!all_refs_resolve(*e, *t));
                    } else {
                        // the budget for this child was already exceeded
                        lemma_kids_bytes_nonneg(e.children@.take(k as int));
                        assert(strs_len(pool_in.strs()) + elem_bytes(e.children@[k as int])
                            > 0x8000);
                        assert(strs_len(old(pool).strs()) + elem_bytes(*e) > 0x8000);
                    }
                    assert(out@.take(base as int) =~= old(out)@);
                    assert(out@.len() <= base + elem_shapes_len(*e)) by {
                        lemma_kids_shapes_len(e.children@.take(k as int), *t);
                        lemma_kids_split(e.children@, *t, k as int);
                    }
                }
                return Err(err);
            },
        }
        proof {
            let child_shapes = elem_shapes(e.children@[k as int], *t);
            assert(kids_shapes(e.children@.take(k as int + 1), *t) =~= done + child_shapes) by {
                assert(e.children@.take(k as int + 1).take(k as int) =~= e.children@.take(
                    k as int,
                ));
                assert(e.children@.take(k as int + 1).skip(k as int) =~= seq![
                    e.children@[k as int],
                ]);
                lemma_kids_split(e.children@.take(k as int + 1), *t, k as int);
                assert(kids_shapes(seq![e.children@[k as int]], *t) =~= child_shapes) by {
                    assert(seq![e.children@[k as int]].drop_first() =~= Seq::<Element>::empty());
                }
            }
            assert(out@.take(base as int) =~= old(out)@) by {
                assert(out@.take(out_in.len() as int).take(base as int) =~= out@.take(
                    base as int,
                ));
            }
            assert forall|q: int| 0 <= q < pre.len() + done.len() + child_shapes.len()
                implies shape_match(
                cv(out@[base + q]),
                #[trigger] (pre + kids_shapes(e.children@.take(k as int + 1), *t))[q],
                pool.strs(),
            ) by {
                if q < pre.len() + done.len() {
                    assert(out@[base + q] == out@.take(out_in.len() as int)[base + q]);
                    assert((pre + kids_shapes(e.children@.take(k as int + 1), *t))[q] == (pre
                        + done)[q]);
                    lemma_shape_match_extend(
                        cv(out@[base + q]),
                        (pre + done)[q],
                        pool_in.strs(),
                        pool.strs(),
                    );
                } else {
                    let j = q - pre.len() - done.len();
                    assert(out@[out_in.len() + j] == out@[base + q]);
                    assert((pre + kids_shapes(e.children@.take(k as int + 1), *t))[q]
                        == child_shapes[j]);
                    assert(shape_match(cv(out@[out_in.len() + j]), child_shapes[j], pool.strs()));
                }
            }
        }
        k = k + 1;
    }
    proof {
        assert(e.children@.take(nc as int) =~= e.children@);
    }
    out.push(Chunk::XmlEndElement { ns: ns_idx, name: name_idx });
    proof {
        let endsh = ShapeV::End { ns: e.ns@, name: e.name@ };
        assert(out@.take(base as int) =~= old(out)@);
        assert(shapes =~= pre + kids_shapes(e.children@, *t) + seq![endsh]);
        assert(out@.len() == base + shapes.len());
        assert(shape_match(cv(out@[base + shapes.len() - 1]), endsh, pool.strs()));
        assert forall|q: int| 0 <= q < shapes.len() implies shape_match(
            cv(out@[base + q]),
            #[trigger] shapes[q],
            pool.strs(),
        ) by {
            if q < shapes.len() - 1 {
                assert(shapes[q] == (pre + kids_shapes(e.children@, *t))[q]);
                assert(out@[base + q] == out@.take(out@.len() - 1)[base + q]);
            } else {
                assert(shapes[q] == endsh);
            }
        }
    }
    Ok(())
}

/// Compiles a logical manifest document against a finished resource table
/// into one well-formed binary XML chunk: a fresh, self-contained string
/// pool first, then the document's start-tag, attribute and end-tag
/// chunks in order, names as pool indices and references as the
/// identifiers the table resolves them to.  Fails with
/// `UnresolvedReference` when (and only when, for documents within the
/// format's size fields) a reference names a resource the table does not
/// hold; a document within those fields otherwise always compiles.
#[verifier::loop_isolation(false)]
#[verifier::rlimit(100)]
pub fn compile_manifest(doc: &Element, t: &Table) -> (r: Result<Chunk, CompileError>)
    requires
        t.inv(),
    ensures
        r matches Ok(c) ==> {
            &&& all_refs_resolve(*doc, *t)
            &&& wf(cv(c))
            &&& cv(c) matches ChunkV::Xml { children } && ({
                let shapes = elem_shapes(*doc, *t);
                let pl = pool_strings(children[0]);
                &&& children.len() == 1 + shapes.len()
                &&& children[0] is StringPool
                &&& forall|i: int|
                    0 <= i < shapes.len() ==> shape_match(
                        children[1 + i],
                        #[trigger] shapes[i],
                        pl,
                    )
            })
        },
        r == Err::<Chunk, _>(CompileError::UnresolvedReference) ==> !all_refs_resolve(*doc, *t),
        r == Err::<Chunk, _>(CompileError::TooLarge) ==> !doc_small(*doc),
        all_refs_resolve(*doc, *t) && doc_small(*doc) ==> r is Ok,
{
    let ghost shapes = elem_shapes(*doc, *t);
    proof {
        lemma_shapes_len(*doc, *t);
        lemma_elem_bytes_nonneg(*doc);
    }
    let mut pool = StringPool::new(true);
    let mut body: Vec<Chunk> = Vec::new();
    match compile_element(doc, t, &mut pool, &mut body) {
        Ok(()) => {},
        Err(e) => {
            proof {
                if e == CompileError::TooLarge {
                    assert(elem_bytes(*doc) > 0x8000);
                    assert(!doc_small(*doc));
                }
            }
            return Err(e);
        },
    }
    if !pool_fits(&pool.strings) {
        proof {
            // an oversized pool means an oversized document
            lemma_enc_strs_len(pool.strs());
            assert(strs_len(pool.strs()) <= elem_bytes(*doc));
            assert(8 + pool_hdr_len(pool.strs()) > 0xFFFF);
            assert(pool_hdr_len(pool.strs()) <= 15 + 2 * strs_len(pool.strs()));
            assert(!doc_small(*doc));
        }
        return Err(CompileError::TooLarge);
    }
    let ghost pl = pool.strs();
    let ghost body0 = body@;
    let mut children: Vec<Chunk> = Vec::new();
    let mut total: u64 = 0;
    proof {
        assert(cvs(children@) =~= Seq::<ChunkV>::empty());
        assert(body0.take(0int) =~= Seq::<Chunk>::empty());
    }
    let pool_chunk = pool.to_chunk();
    let ghost pcg = pool_chunk;
    proof {
        assert(wf(cv(pool_chunk)));
        lemma_enc_len(cv(pool_chunk));
    }
    if !push_kid(&mut children, &mut total, pool_chunk) {
        proof {
            assert(false);
        }
        return Err(CompileError::TooLarge);
    }
    proof {
        assert(children@ =~= seq![pcg]);
        assert(children@[0] == pcg);
        assert(children@.drop_first() =~= Seq::<Chunk>::empty());
        assert(cvs(Seq::<Chunk>::empty()) == Seq::<ChunkV>::empty());
        assert(cvs(children@) == seq![cv(pcg)] + Seq::<ChunkV>::empty());
        assert(cvs(children@) =~= seq![cv(pcg)]);
        lemma_enc_children_one(cv(pcg));
        assert(total == enc(cv(pcg)).len());
        assert(enc(cv(pcg)).len() == 8 + pool_hdr_len(pl));
        assert(total <= 0x10008);
    }
    let nb = body.len();
    let mut j: usize = 0;
    while j < nb
        invariant
            j <= nb,
            nb == body0.len(),
            nb == shapes.len(),
            body@ == body0.skip(j as int),
            forall|q: int| 0 <= q < nb ==> shape_match(cv(#[trigger] body0[q]), shapes[q], pl),
            wf_children(cvs(children@)),
            total == enc_children(cvs(children@)).len(),
            total <= 0xFFFF_FFEF,
            total <= 0x10008 + 28 * j,
            children@ == seq![pcg] + body0.take(j as int),
        decreases nb - j,
    {
        proof {
            assert(body@[0] == body0[j as int]);
            assert(shape_match(cv(body0[j as int]), shapes[j as int], pl));
            assert(wf(cv(body0[j as int])));
            lemma_enc_len(cv(body0[j as int]));
            assert(enc(cv(body0[j as int])).len() <= 28);
        }
        let c = body.remove(0);
        proof {
            assert(body@ =~= body0.skip(j as int + 1));
        }
        let ghost ch0 = children@;
        let ghost t0 = total;
        if !push_kid(&mut children, &mut total, c) {
            proof {
                // only a document beyond the chunk budget can get here
                assert(total + enc(cv(body0[j as int])).len() > 0xFFFF_FFEF);
                assert(0x10008 + 28 * j + 28 > 0xFFFF_FFEF);
                assert(j > 0x100000);
                lemma_shapes_len(*doc, *t);
                assert(!doc_small(*doc));
            }
            return Err(CompileError::TooLarge);
        }
        proof {
            assert(children@ == ch0.push(body0[j as int]));
            lemma_cvs_snoc(ch0, body0[j as int]);
            lemma_children_snoc(cvs(ch0), cv(body0[j as int]));
            assert(total == t0 + enc(cv(body0[j as int])).len());
            assert(children@ =~= seq![pcg] + body0.take(j as int + 1));
        }
        j = j + 1;
    }
    proof {
        assert(body0.take(nb as int) =~= body0);
        let cc = cvs(children@);
        lemma_cvs_index(children@, 0);
        assert(children@[0] == pcg);
        assert(cc[0] is StringPool);
        assert(pool_strings(cc[0]) == pl);
        assert forall|i: int| 0 <= i < shapes.len() implies shape_match(
            cc[1 + i],
            #[trigger] shapes[i],
            pool_strings(cc[0]),
        ) by {
            lemma_cvs_index(children@, 1 + i);
            assert(children@[1 + i] == body0[i]);
        }
        let xc = ChunkV::Xml { children: cc };
        lemma_cvs_index(children@, 0);
        assert(cc.len() == 1 + shapes.len());
        assert(wf(xc));
    }
    Ok(Chunk::Xml { children })
}

} // verus!
