//! The chunk tree: a self-describing binary node format.
//!
//! Every chunk starts with an 8-byte header: a 16-bit type tag, a 16-bit
//! header length (the 8 header bytes plus all tag-specific fields) and a
//! 32-bit total length (header length plus the serialized length of all
//! child chunks).  Leaf chunks have no children, so their header length
//! equals their total length.  `enc` is the specification-level serializer;
//! `wf` says when a tree can be serialized within the format's length
//! fields.

use vstd::prelude::*;
use crate::bytes::{le16, le32};

verus! {

pub const TAG_STRING_POOL: u16 = 0x0001;

pub const TAG_TABLE: u16 = 0x0002;

pub const TAG_XML: u16 = 0x0003;

pub const TAG_XML_START_NAMESPACE: u16 = 0x0100;

pub const TAG_XML_END_NAMESPACE: u16 = 0x0101;

pub const TAG_XML_START_ELEMENT: u16 = 0x0102;

pub const TAG_XML_END_ELEMENT: u16 = 0x0103;

pub const TAG_XML_ATTRIBUTE: u16 = 0x0104;

pub const TAG_PACKAGE: u16 = 0x0200;

pub const TAG_TABLE_TYPE: u16 = 0x0201;

pub const TAG_TYPE_SPEC: u16 = 0x0202;

pub open spec fn known_tag(t: u16) -> bool {
    t == TAG_STRING_POOL || t == TAG_TABLE || t == TAG_XML || t == TAG_XML_START_NAMESPACE || t
        == TAG_XML_END_NAMESPACE || t == TAG_XML_START_ELEMENT || t == TAG_XML_END_ELEMENT || t
        == TAG_XML_ATTRIBUTE || t == TAG_PACKAGE || t == TAG_TABLE_TYPE || t == TAG_TYPE_SPEC
}

/// One resource entry of a table-type chunk: a name (index into the
/// package's string pool), a value type tag and the raw value word.
#[derive(Debug, Clone, Copy, PartialEq, Eq, Structural)]
pub struct ResEntry {
    pub name: u32,
    pub typ: u32,
    pub data: u32,
}

/// A chunk tree node.  Unknown tags are preserved verbatim so that inputs
/// from a newer format revision survive a parse/write cycle.
#[derive(Debug, PartialEq, Eq)]
pub enum Chunk {
    StringPool { utf8: bool, strings: Vec<Vec<u8>> },
    Table { children: Vec<Chunk> },
    Package { id: u32, name: u32, children: Vec<Chunk> },
    TypeSpec { id: u32, flags: Vec<u32> },
    TableType { id: u32, name: u32, density: u32, entries: Vec<ResEntry> },
    Xml { children: Vec<Chunk> },
    XmlStartNamespace { prefix: u32, uri: u32 },
    XmlEndNamespace { prefix: u32, uri: u32 },
    XmlStartElement { ns: u32, name: u32 },
    XmlAttribute { ns: u32, name: u32, raw: u32, typ: u32, data: u32 },
    XmlEndElement { ns: u32, name: u32 },
    Unknown { tag: u16, header_size: u16, payload: Vec<u8> },
}

/// The mathematical model of a chunk tree.
pub enum ChunkV {
    StringPool { utf8: bool, strings: Seq<Seq<u8>> },
    Table { children: Seq<ChunkV> },
    Package { id: u32, name: u32, children: Seq<ChunkV> },
    TypeSpec { id: u32, flags: Seq<u32> },
    TableType { id: u32, name: u32, density: u32, entries: Seq<ResEntry> },
    Xml { children: Seq<ChunkV> },
    XmlStartNamespace { prefix: u32, uri: u32 },
    XmlEndNamespace { prefix: u32, uri: u32 },
    XmlStartElement { ns: u32, name: u32 },
    XmlAttribute { ns: u32, name: u32, raw: u32, typ: u32, data: u32 },
    XmlEndElement { ns: u32, name: u32 },
    Unknown { tag: u16, header_size: u16, payload: Seq<u8> },
}

pub open spec fn cv(c: Chunk) -> ChunkV
    decreases c,
{
    match c {
        Chunk::StringPool { utf8, strings } => ChunkV::StringPool {
            utf8,
            strings: strings@.map_values(|s: Vec<u8>| s@),
        },
        Chunk::Table { children } => ChunkV::Table { children: cvs(children@) },
        Chunk::Package { id, name, children } => ChunkV::Package {
            id,
            name,
            children: cvs(children@),
        },
        Chunk::TypeSpec { id, flags } => ChunkV::TypeSpec { id, flags: flags@ },
        Chunk::TableType { id, name, density, entries } => ChunkV::TableType {
            id,
            name,
            density,
            entries: entries@,
        },
        Chunk::Xml { children } => ChunkV::Xml { children: cvs(children@) },
        Chunk::XmlStartNamespace { prefix, uri } => ChunkV::XmlStartNamespace { prefix, uri },
        Chunk::XmlEndNamespace { prefix, uri } => ChunkV::XmlEndNamespace { prefix, uri },
        Chunk::XmlStartElement { ns, name } => ChunkV::XmlStartElement { ns, name },
        Chunk::XmlAttribute { ns, name, raw, typ, data } => ChunkV::XmlAttribute {
            ns,
            name,
            raw,
            typ,
            data,
        },
        Chunk::XmlEndElement { ns, name } => ChunkV::XmlEndElement { ns, name },
        Chunk::Unknown { tag, header_size, payload } => ChunkV::Unknown {
            tag,
            header_size,
            payload: payload@,
        },
    }
}

pub open spec fn cvs(cs: Seq<Chunk>) -> Seq<ChunkV>
    decreases cs,
{
    if cs.len() == 0 {
        Seq::empty()
    } else {
        seq![cv(cs[0])] + cvs(cs.drop_first())
    }
}

pub proof fn lemma_cvs_len(cs: Seq<Chunk>)
    ensures
        cvs(cs).len() == cs.len(),
    decreases cs,
{
    if cs.len() != 0 {
        lemma_cvs_len(cs.drop_first());
    }
}

pub proof fn lemma_cvs_index(cs: Seq<Chunk>, i: int)
    requires
        0 <= i < cs.len(),
    ensures
        cvs(cs).len() == cs.len(),
        cvs(cs)[i] == cv(cs[i]),
    decreases cs,
{
    lemma_cvs_len(cs);
    if i > 0 {
        lemma_cvs_index(cs.drop_first(), i - 1);
    }
}

// --- encoding -----------------------------------------------------------

/// Little-endian words, one after the other.
pub open spec fn enc_u32s(vs: Seq<u32>) -> Seq<u8>
    decreases vs.len(),
{
    if vs.len() == 0 {
        Seq::empty()
    } else {
        le32(vs[0]) + enc_u32s(vs.drop_first())
    }
}

/// Resource entries, twelve bytes each.
pub open spec fn enc_entries(es: Seq<ResEntry>) -> Seq<u8>
    decreases es.len(),
{
    if es.len() == 0 {
        Seq::empty()
    } else {
        le32(es[0].name) + le32(es[0].typ) + le32(es[0].data) + enc_entries(es.drop_first())
    }
}

/// Length-prefixed byte strings, one after the other.
pub open spec fn enc_strs(ss: Seq<Seq<u8>>) -> Seq<u8>
    decreases ss.len(),
{
    if ss.len() == 0 {
        Seq::empty()
    } else {
        le32(ss[0].len() as u32) + ss[0] + enc_strs(ss.drop_first())
    }
}

/// The serialized length of `enc_strs(ss)`.
pub open spec fn strs_len(ss: Seq<Seq<u8>>) -> int
    decreases ss.len(),
{
    if ss.len() == 0 {
        0
    } else {
        4 + ss[0].len() + strs_len(ss.drop_first())
    }
}

/// Bytes needed to pad `n` up to a four-byte boundary.
pub open spec fn pad4(n: int) -> int {
    if n % 4 == 0 {
        0
    } else {
        4 - n % 4
    }
}

pub open spec fn zeros(n: int) -> Seq<u8> {
    Seq::new(n as nat, |i| 0u8)
}

/// The offset table of a string pool: byte offset of each string's length
/// word from the start of the string data region.
pub open spec fn offsets_of(ss: Seq<Seq<u8>>) -> Seq<u32> {
    Seq::new(ss.len(), |i| strs_len(ss.take(i)) as u32)
}

/// The tag-specific header fields of a string pool: entry count, style
/// count (always zero; styles are not produced), encoding flags, the
/// offset table, the string data and its alignment padding.
pub open spec fn pool_hdr(utf8: bool, ss: Seq<Seq<u8>>) -> Seq<u8> {
    le32(ss.len() as u32) + le32(0) + le32(
        if utf8 {
            1
        } else {
            0
        },
    ) + enc_u32s(offsets_of(ss)) + enc_strs(ss) + zeros(pad4(strs_len(ss)))
}

pub open spec fn pool_hdr_len(ss: Seq<Seq<u8>>) -> int {
    12 + 4 * ss.len() + strs_len(ss) + pad4(strs_len(ss))
}

/// An 8-byte chunk header followed by the tag-specific fields and the
/// serialized children.
pub open spec fn enc_with(tag: u16, hdr: Seq<u8>, body: Seq<u8>) -> Seq<u8> {
    le16(tag) + le16((8 + hdr.len()) as u16) + le32((8 + hdr.len() + body.len()) as u32) + hdr
        + body
}

/// The serialized bytes of a chunk tree.
pub open spec fn enc(c: ChunkV) -> Seq<u8>
    decreases c,
{
    match c {
        ChunkV::StringPool { utf8, strings } => enc_with(
            TAG_STRING_POOL,
            pool_hdr(utf8, strings),
            Seq::empty(),
        ),
        ChunkV::Table { children } => enc_with(TAG_TABLE, Seq::empty(), enc_children(children)),
        ChunkV::Package { id, name, children } => enc_with(
            TAG_PACKAGE,
            le32(id) + le32(name),
            enc_children(children),
        ),
        ChunkV::TypeSpec { id, flags } => enc_with(
            TAG_TYPE_SPEC,
            le32(id) + le32(flags.len() as u32) + enc_u32s(flags),
            Seq::empty(),
        ),
        ChunkV::TableType { id, name, density, entries } => enc_with(
            TAG_TABLE_TYPE,
            le32(id) + le32(name) + le32(density) + le32(entries.len() as u32) + enc_entries(
                entries,
            ),
            Seq::empty(),
        ),
        ChunkV::Xml { children } => enc_with(TAG_XML, Seq::empty(), enc_children(children)),
        ChunkV::XmlStartNamespace { prefix, uri } => enc_with(
            TAG_XML_START_NAMESPACE,
            le32(prefix) + le32(uri),
            Seq::empty(),
        ),
        ChunkV::XmlEndNamespace { prefix, uri } => enc_with(
            TAG_XML_END_NAMESPACE,
            le32(prefix) + le32(uri),
            Seq::empty(),
        ),
        ChunkV::XmlStartElement { ns, name } => enc_with(
            TAG_XML_START_ELEMENT,
            le32(ns) + le32(name),
            Seq::empty(),
        ),
        ChunkV::XmlAttribute { ns, name, raw, typ, data } => enc_with(
            TAG_XML_ATTRIBUTE,
            le32(ns) + le32(name) + le32(raw) + le32(typ) + le32(data),
            Seq::empty(),
        ),
        ChunkV::XmlEndElement { ns, name } => enc_with(
            TAG_XML_END_ELEMENT,
            le32(ns) + le32(name),
            Seq::empty(),
        ),
        ChunkV::Unknown { tag, header_size, payload } => le16(tag) + le16(header_size) + le32(
            (8 + payload.len()) as u32,
        ) + payload,
    }
}

/// The serialized children of a container chunk, in order.
pub open spec fn enc_children(cs: Seq<ChunkV>) -> Seq<u8>
    decreases cs,
{
    if cs.len() == 0 {
        Seq::empty()
    } else {
        enc(cs[0]) + enc_children(cs.drop_first())
    }
}

// --- well-formedness ----------------------------------------------------

/// A tree whose length fields all fit: tag-specific fields within the
/// 16-bit header length, header plus children within the 32-bit total
/// length, and no known tag hiding inside an opaque chunk.
pub open spec fn wf(c: ChunkV) -> bool
    decreases c,
{
    match c {
        ChunkV::StringPool { utf8, strings } => 8 + pool_hdr_len(strings) <= 0xFFFF,
        ChunkV::Table { children } => wf_children(children) && 8 + enc_children(children).len()
            <= 0xFFFF_FFFF,
        ChunkV::Package { id, name, children } => wf_children(children) && 16 + enc_children(
            children,
        ).len() <= 0xFFFF_FFFF,
        ChunkV::TypeSpec { id, flags } => 16 + 4 * flags.len() <= 0xFFFF,
        ChunkV::TableType { id, name, density, entries } => 24 + 12 * entries.len() <= 0xFFFF,
        ChunkV::Xml { children } => wf_children(children) && 8 + enc_children(children).len()
            <= 0xFFFF_FFFF,
        ChunkV::XmlStartNamespace { .. } => true,
        ChunkV::XmlEndNamespace { .. } => true,
        ChunkV::XmlStartElement { .. } => true,
        ChunkV::XmlAttribute { .. } => true,
        ChunkV::XmlEndElement { .. } => true,
        ChunkV::Unknown { tag, header_size, payload } => !known_tag(tag) && 8 <= header_size
            && header_size <= 8 + payload.len() && 8 + payload.len() <= 0xFFFF_FFFF,
    }
}

pub open spec fn wf_children(cs: Seq<ChunkV>) -> bool
    decreases cs,
{
    cs.len() == 0 || (wf(cs[0]) && wf_children(cs.drop_first()))
}

// --- length and splitting lemmas ----------------------------------------

pub proof fn lemma_enc_u32s_len(vs: Seq<u32>)
    ensures
        enc_u32s(vs).len() == 4 * vs.len(),
    decreases vs.len(),
{
    if vs.len() != 0 {
        lemma_enc_u32s_len(vs.drop_first());
    }
}

pub proof fn lemma_enc_entries_len(es: Seq<ResEntry>)
    ensures
        enc_entries(es).len() == 12 * es.len(),
    decreases es.len(),
{
    if es.len() != 0 {
        lemma_enc_entries_len(es.drop_first());
    }
}

pub proof fn lemma_enc_strs_len(ss: Seq<Seq<u8>>)
    ensures
        enc_strs(ss).len() == strs_len(ss),
        strs_len(ss) >= 4 * ss.len() >= 0,
    decreases ss.len(),
{
    if ss.len() != 0 {
        lemma_enc_strs_len(ss.drop_first());
    }
}

/// The serialized length of every chunk is its 8-byte header plus its
/// fields plus its children, and is at least 8.
#[verifier::rlimit(40)]
pub proof fn lemma_enc_len(c: ChunkV)
    ensures
        enc(c).len() >= 8,
        enc(c).len() == match c {
            ChunkV::StringPool { strings, .. } => 8 + pool_hdr_len(strings),
            ChunkV::Table { children } => 8 + enc_children(children).len() as int,
            ChunkV::Package { children, .. } => 16 + enc_children(children).len() as int,
            ChunkV::TypeSpec { flags, .. } => 16 + 4 * flags.len() as int,
            ChunkV::TableType { entries, .. } => 24 + 12 * entries.len() as int,
            ChunkV::Xml { children } => 8 + enc_children(children).len() as int,
            ChunkV::XmlAttribute { .. } => 28int,
            ChunkV::Unknown { payload, .. } => 8 + payload.len() as int,
            _ => 16int,
        },
{
    match c {
        ChunkV::StringPool { utf8, strings } => {
            lemma_enc_u32s_len(offsets_of(strings));
            lemma_enc_strs_len(strings);
        },
        ChunkV::TypeSpec { id, flags } => {
            lemma_enc_u32s_len(flags);
        },
        ChunkV::TableType { entries, .. } => {
            lemma_enc_entries_len(entries);
        },
        _ => {},
    }
}

pub proof fn lemma_enc_children_len(cs: Seq<ChunkV>)
    ensures
        enc_children(cs).len() >= 8 * cs.len() >= 0,
    decreases cs,
{
    if cs.len() != 0 {
        lemma_enc_len(cs[0]);
        lemma_enc_children_len(cs.drop_first());
    }
}

/// Children serialize independently: the encoding of a sequence splits at
/// any index.
pub proof fn lemma_enc_children_split(cs: Seq<ChunkV>, i: int)
    requires
        0 <= i <= cs.len(),
    ensures
        enc_children(cs) == enc_children(cs.take(i)) + enc_children(cs.skip(i)),
    decreases i,
{
    if i == 0 {
        assert(cs.take(0) =~= Seq::<ChunkV>::empty());
        assert(cs.skip(0) =~= cs);
        assert(enc_children(cs) =~= enc_children(cs.take(0)) + enc_children(cs.skip(0)));
    } else {
        lemma_enc_children_split(cs.drop_first(), i - 1);
        assert(cs.drop_first().take(i - 1) =~= cs.take(i).drop_first());
        assert(cs.drop_first().skip(i - 1) =~= cs.skip(i));
        assert(cs.take(i)[0] == cs[0]);
        assert(enc_children(cs) == enc(cs[0]) + enc_children(cs.drop_first()));
        assert(enc_children(cs.take(i)) == enc(cs[0]) + enc_children(cs.take(i).drop_first()));
        assert(enc_children(cs) =~= enc_children(cs.take(i)) + enc_children(cs.skip(i)));
    }
}

pub proof fn lemma_enc_u32s_one(v: u32)
    ensures
        enc_u32s(seq![v]) == le32(v),
{
    assert(seq![v].drop_first() =~= Seq::<u32>::empty());
    assert(enc_u32s(Seq::<u32>::empty()) == Seq::<u8>::empty());
    assert(enc_u32s(seq![v]) == le32(v) + enc_u32s(Seq::<u32>::empty()));
    assert(le32(v) + Seq::<u8>::empty() =~= le32(v));
}

pub proof fn lemma_enc_entries_one(e: ResEntry)
    ensures
        enc_entries(seq![e]) == le32(e.name) + le32(e.typ) + le32(e.data),
{
    assert(seq![e].drop_first() =~= Seq::<ResEntry>::empty());
    assert(enc_entries(Seq::<ResEntry>::empty()) == Seq::<u8>::empty());
    assert(enc_entries(seq![e]) == le32(e.name) + le32(e.typ) + le32(e.data) + enc_entries(
        Seq::<ResEntry>::empty(),
    ));
    assert(le32(e.name) + le32(e.typ) + le32(e.data) + Seq::<u8>::empty() =~= le32(e.name) + le32(
    e.typ) + le32(e.data));
}

pub proof fn lemma_strs_one(s: Seq<u8>)
    ensures
        strs_len(seq![s]) == 4 + s.len(),
        enc_strs(seq![s]) == le32(s.len() as u32) + s,
{
    assert(seq![s].drop_first() =~= Seq::<Seq<u8>>::empty());
    assert(strs_len(Seq::<Seq<u8>>::empty()) == 0);
    assert(enc_strs(Seq::<Seq<u8>>::empty()) == Seq::<u8>::empty());
    assert(enc_strs(seq![s]) == le32(s.len() as u32) + s + enc_strs(Seq::<Seq<u8>>::empty()));
    assert(le32(s.len() as u32) + s + Seq::<u8>::empty() =~= le32(s.len() as u32) + s);
}

pub proof fn lemma_enc_children_one(c: ChunkV)
    ensures
        enc_children(seq![c]) == enc(c),
{
    assert(seq![c].drop_first() =~= Seq::<ChunkV>::empty());
    assert(enc_children(Seq::<ChunkV>::empty()) == Seq::<u8>::empty());
    assert(enc_children(seq![c]) == enc(c) + enc_children(Seq::<ChunkV>::empty()));
    assert(enc(c) + Seq::<u8>::empty() =~= enc(c));
}

pub proof fn lemma_enc_u32s_split(vs: Seq<u32>, i: int)
    requires
        0 <= i <= vs.len(),
    ensures
        enc_u32s(vs) == enc_u32s(vs.take(i)) + enc_u32s(vs.skip(i)),
    decreases i,
{
    if i == 0 {
        assert(vs.take(0) =~= Seq::<u32>::empty());
        assert(vs.skip(0) =~= vs);
        assert(enc_u32s(vs) =~= enc_u32s(vs.take(0)) + enc_u32s(vs.skip(0)));
    } else {
        lemma_enc_u32s_split(vs.drop_first(), i - 1);
        assert(vs.drop_first().take(i - 1) =~= vs.take(i).drop_first());
        assert(vs.drop_first().skip(i - 1) =~= vs.skip(i));
        assert(vs.take(i)[0] == vs[0]);
        assert(enc_u32s(vs) =~= enc_u32s(vs.take(i)) + enc_u32s(vs.skip(i)));
    }
}

pub proof fn lemma_enc_entries_split(es: Seq<ResEntry>, i: int)
    requires
        0 <= i <= es.len(),
    ensures
        enc_entries(es) == enc_entries(es.take(i)) + enc_entries(es.skip(i)),
    decreases i,
{
    if i == 0 {
        assert(es.take(0) =~= Seq::<ResEntry>::empty());
        assert(es.skip(0) =~= es);
        assert(enc_entries(es) =~= enc_entries(es.take(0)) + enc_entries(es.skip(0)));
    } else {
        lemma_enc_entries_split(es.drop_first(), i - 1);
        assert(es.drop_first().take(i - 1) =~= es.take(i).drop_first());
        assert(es.drop_first().skip(i - 1) =~= es.skip(i));
        assert(es.take(i)[0] == es[0]);
        assert(enc_entries(es) =~= enc_entries(es.take(i)) + enc_entries(es.skip(i)));
    }
}

pub proof fn lemma_wf_children_index(cs: Seq<ChunkV>, i: int)
    requires
        wf_children(cs),
        0 <= i < cs.len(),
    ensures
        wf(cs[i]),
        wf_children(cs.skip(i)),
    decreases i,
{
    if i == 0 {
        assert(cs.skip(0) =~= cs);
    } else {
        lemma_wf_children_index(cs.drop_first(), i - 1);
        assert(cs.drop_first().skip(i - 1) =~= cs.skip(i));
    }
}

pub proof fn lemma_strs_len_split(ss: Seq<Seq<u8>>, i: int)
    requires
        0 <= i <= ss.len(),
    ensures
        strs_len(ss) == strs_len(ss.take(i)) + strs_len(ss.skip(i)),
        enc_strs(ss) == enc_strs(ss.take(i)) + enc_strs(ss.skip(i)),
    decreases i,
{
    if i == 0 {
        assert(ss.take(0) =~= Seq::<Seq<u8>>::empty());
        assert(ss.skip(0) =~= ss);
        assert(enc_strs(ss) =~= enc_strs(ss.take(0)) + enc_strs(ss.skip(0)));
    } else {
        lemma_strs_len_split(ss.drop_first(), i - 1);
        assert(ss.drop_first().take(i - 1) =~= ss.take(i).drop_first());
        assert(ss.drop_first().skip(i - 1) =~= ss.skip(i));
        assert(ss.take(i)[0] == ss[0]);
        assert(enc_strs(ss) =~= enc_strs(ss.take(i)) + enc_strs(ss.skip(i)));
    }
}


/// Appending one child appends its encoding and keeps well-formedness.
pub proof fn lemma_children_snoc(cs: Seq<ChunkV>, c: ChunkV)
    ensures
        enc_children(cs.push(c)) == enc_children(cs) + enc(c),
        wf_children(cs) && wf(c) ==> wf_children(cs.push(c)),
    decreases cs,
{
    if cs.len() == 0 {
        assert(cs.push(c)[0] == c);
        assert(cs.push(c).len() == 1);
        assert(cs.push(c).drop_first() =~= Seq::<ChunkV>::empty());
        assert(enc_children(Seq::<ChunkV>::empty()) == Seq::<u8>::empty());
        assert(wf_children(Seq::<ChunkV>::empty()));
        assert(enc_children(cs.push(c)) == enc(c) + enc_children(Seq::<ChunkV>::empty()));
        assert(enc(c) + Seq::<u8>::empty() =~= enc(c));
        assert(enc_children(cs) == Seq::<u8>::empty());
        assert(Seq::<u8>::empty() + enc(c) =~= enc(c));
        assert(wf(c) ==> wf_children(cs.push(c)));
    } else {
        lemma_children_snoc(cs.drop_first(), c);
        assert(cs.push(c)[0] == cs[0]);
        assert(cs.push(c).len() == cs.len() + 1);
        assert(cs.push(c).drop_first() =~= cs.drop_first().push(c));
        assert(enc_children(cs.push(c)) == enc(cs[0]) + enc_children(cs.drop_first().push(c)));
        assert(enc_children(cs.push(c)) == enc(cs[0]) + (enc_children(cs.drop_first()) + enc(c)));
        assert(enc_children(cs) == enc(cs[0]) + enc_children(cs.drop_first()));
        assert(enc_children(cs.push(c)) =~= enc_children(cs) + enc(c));
        if wf_children(cs) && wf(c) {
            assert(wf(cs[0]));
            assert(wf_children(cs.drop_first().push(c)));
            assert(wf_children(cs.push(c)));
        }
    }
}

pub proof fn lemma_cvs_snoc(cs: Seq<Chunk>, c: Chunk)
    ensures
        cvs(cs.push(c)) == cvs(cs).push(cv(c)),
    decreases cs,
{
    if cs.len() == 0 {
        assert(cs.push(c)[0] == c);
        assert(cs.push(c).len() == 1);
        assert(cs.push(c).drop_first() =~= Seq::<Chunk>::empty());
        assert(cvs(Seq::<Chunk>::empty()) == Seq::<ChunkV>::empty());
        assert(cvs(cs.push(c)) == seq![cv(c)] + cvs(Seq::<Chunk>::empty()));
        assert(cvs(cs) == Seq::<ChunkV>::empty());
        assert(cvs(cs.push(c)) =~= cvs(cs).push(cv(c)));
    } else {
        lemma_cvs_snoc(cs.drop_first(), c);
        assert(cs.push(c)[0] == cs[0]);
        assert(cs.push(c).len() == cs.len() + 1);
        assert(cs.push(c).drop_first() =~= cs.drop_first().push(c));
        assert(cvs(cs.push(c)) == seq![cv(cs[0])] + cvs(cs.drop_first().push(c)));
        assert(cvs(cs.push(c)) == seq![cv(cs[0])] + cvs(cs.drop_first()).push(cv(c)));
        assert(cvs(cs) == seq![cv(cs[0])] + cvs(cs.drop_first()));
        assert(cvs(cs.push(c)) =~= cvs(cs).push(cv(c)));
    }
}

} // verus!
