//! The executable serializer: `Chunk::write` appends exactly `enc` of the
//! chunk's model, recomputing every header and total length from the actual
//! content, so a programmatically built tree never pre-computes sizes.

use vstd::prelude::*;
use crate::bytes::{le32, push_u16, push_u32};
use crate::chunk::{
    Chunk, ChunkV, ResEntry, cv, cvs, enc, enc_children, enc_entries, enc_strs, enc_u32s,
    enc_with, lemma_cvs_index, lemma_cvs_len, lemma_enc_children_len, lemma_enc_children_split,
    lemma_enc_entries_len, lemma_enc_entries_split, lemma_enc_len, lemma_enc_strs_len,
    lemma_enc_children_one, lemma_enc_entries_one, lemma_enc_u32s_len, lemma_enc_u32s_one,
    lemma_enc_u32s_split, lemma_strs_len_split, lemma_strs_one, lemma_wf_children_index,
    offsets_of, pad4, pool_hdr, pool_hdr_len, strs_len, wf, wf_children, zeros, TAG_PACKAGE,
    TAG_STRING_POOL, TAG_TABLE, TAG_TABLE_TYPE, TAG_TYPE_SPEC, TAG_XML, TAG_XML_ATTRIBUTE,
    TAG_XML_END_ELEMENT, TAG_XML_END_NAMESPACE, TAG_XML_START_ELEMENT, TAG_XML_START_NAMESPACE,
};

verus! {

/// The model of a vector of byte strings.
pub open spec fn ssv(strings: Seq<Vec<u8>>) -> Seq<Seq<u8>> {
    strings.map_values(|s: Vec<u8>| s@)
}

/// Appends every byte of `s`.
#[verifier::loop_isolation(false)]
pub fn push_bytes(out: &mut Vec<u8>, s: &Vec<u8>)
    ensures
        final(out)@ == old(out)@ + s@,
{
    let n = s.len();
    let mut i: usize = 0;
    while i < n
        invariant
            i <= n,
            out@ == old(out)@ + s@.take(i as int),
        decreases n - i,
    {
        out.push(s[i]);
        proof {
            assert(out@ =~= old(out)@ + s@.take(i as int + 1));
        }
        i = i + 1;
    }
    proof {
        assert(s@.take(n as int) =~= s@);
    }
}

/// Total serialized length of the length-prefixed string region.
#[verifier::loop_isolation(false)]
pub fn strs_size(strings: &Vec<Vec<u8>>) -> (n: u64)
    requires
        strs_len(ssv(strings@)) <= 0xFFFF_FFFF,
    ensures
        n == strs_len(ssv(strings@)),
{
    let ghost all = ssv(strings@);
    let cnt = strings.len();
    let mut i: usize = 0;
    let mut sl: u64 = 0;
    while i < cnt
        invariant
            i <= cnt,
            sl == strs_len(all.take(i as int)),
        decreases cnt - i,
    {
        proof {
            let j = i as int;
            lemma_strs_len_split(all.take(j + 1), j);
            assert(all.take(j + 1).take(j) =~= all.take(j));
            assert(all.take(j + 1).skip(j) =~= seq![all[j]]);
            lemma_strs_one(all[j]);
            lemma_strs_len_split(all, j + 1);
            lemma_enc_strs_len(all.skip(j + 1));
            assert(all[j] == strings@[j]@);
            assert(sl + 4 + strings@[j]@.len() == strs_len(all.take(j + 1)) <= strs_len(all));
        }
        sl = sl + 4 + strings[i].len() as u64;
        i = i + 1;
    }
    proof {
        assert(all.take(cnt as int) =~= all);
    }
    sl
}

/// Appends each word, little-endian.
#[verifier::loop_isolation(false)]
pub fn write_u32s(vs: &Vec<u32>, out: &mut Vec<u8>)
    ensures
        final(out)@ == old(out)@ + enc_u32s(vs@),
{
    let n = vs.len();
    let mut i: usize = 0;
    while i < n
        invariant
            i <= n,
            out@ == old(out)@ + enc_u32s(vs@.take(i as int)),
        decreases n - i,
    {
        push_u32(out, vs[i]);
        proof {
            let j = i as int;
            lemma_enc_u32s_split(vs@.take(j + 1), j);
            assert(vs@.take(j + 1).take(j) =~= vs@.take(j));
            assert(vs@.take(j + 1).skip(j) =~= seq![vs@[j]]);
            lemma_enc_u32s_one(vs@[j]);
            assert(out@ =~= old(out)@ + enc_u32s(vs@.take(j + 1)));
        }
        i = i + 1;
    }
    proof {
        assert(vs@.take(n as int) =~= vs@);
    }
}

/// Appends each resource entry, twelve bytes.
#[verifier::loop_isolation(false)]
pub fn write_entries(es: &Vec<ResEntry>, out: &mut Vec<u8>)
    ensures
        final(out)@ == old(out)@ + enc_entries(es@),
{
    let n = es.len();
    let mut i: usize = 0;
    while i < n
        invariant
            i <= n,
            out@ == old(out)@ + enc_entries(es@.take(i as int)),
        decreases n - i,
    {
        let e = es[i];
        push_u32(out, e.name);
        push_u32(out, e.typ);
        push_u32(out, e.data);
        proof {
            let j = i as int;
            lemma_enc_entries_split(es@.take(j + 1), j);
            assert(es@.take(j + 1).take(j) =~= es@.take(j));
            assert(es@.take(j + 1).skip(j) =~= seq![es@[j]]);
            lemma_enc_entries_one(es@[j]);
            assert(out@ =~= old(out)@ + enc_entries(es@.take(j + 1)));
        }
        i = i + 1;
    }
    proof {
        assert(es@.take(n as int) =~= es@);
    }
}

/// Appends the offset table of the pool's string data region.
#[verifier::loop_isolation(false)]
fn write_offsets(strings: &Vec<Vec<u8>>, out: &mut Vec<u8>)
    requires
        strs_len(ssv(strings@)) <= 0xFFFF_FFFF,
    ensures
        final(out)@ == old(out)@ + enc_u32s(offsets_of(ssv(strings@))),
{
    let ghost all = ssv(strings@);
    let ghost offs = offsets_of(all);
    proof {
        lemma_enc_strs_len(all);
        assert(all.take(0int) =~= Seq::<Seq<u8>>::empty());
    }
    let n = strings.len();
    let mut i: usize = 0;
    let mut off: u64 = 0;
    while i < n
        invariant
            i <= n,
            off == strs_len(all.take(i as int)),
            0 <= off <= strs_len(all),
            out@ == old(out)@ + enc_u32s(offs.take(i as int)),
        decreases n - i,
    {
        push_u32(out, off as u32);
        proof {
            let j = i as int;
            lemma_enc_u32s_split(offs.take(j + 1), j);
            assert(offs.take(j + 1).take(j) =~= offs.take(j));
            assert(offs.take(j + 1).skip(j) =~= seq![offs[j]]);
            lemma_enc_u32s_one(offs[j]);
            assert(offs[j] == strs_len(all.take(j)) as u32);
            assert(out@ =~= old(out)@ + enc_u32s(offs.take(j + 1)));
            lemma_strs_len_split(all.take(j + 1), j);
            assert(all.take(j + 1).take(j) =~= all.take(j));
            assert(all.take(j + 1).skip(j) =~= seq![all[j]]);
            lemma_strs_one(all[j]);
            lemma_strs_len_split(all, j + 1);
            lemma_enc_strs_len(all.skip(j + 1));
            assert(all[j] == strings@[j]@);
            assert(off + 4 + strings@[j]@.len() == strs_len(all.take(j + 1)) <= strs_len(all));
        }
        off = off + 4 + strings[i].len() as u64;
        i = i + 1;
    }
    proof {
        assert(offs.take(n as int) =~= offs);
    }
}

/// Appends the length-prefixed string data region.
#[verifier::loop_isolation(false)]
fn write_strs(strings: &Vec<Vec<u8>>, out: &mut Vec<u8>)
    requires
        strs_len(ssv(strings@)) <= 0xFFFF_FFFF,
    ensures
        final(out)@ == old(out)@ + enc_strs(ssv(strings@)),
{
    let ghost all = ssv(strings@);
    let n = strings.len();
    let mut i: usize = 0;
    while i < n
        invariant
            i <= n,
            out@ == old(out)@ + enc_strs(all.take(i as int)),
        decreases n - i,
    {
        proof {
            let j = i as int;
            lemma_strs_len_split(all, j);
            lemma_enc_strs_len(all.take(j));
            lemma_enc_strs_len(all.skip(j));
            assert(all.skip(j)[0] == all[j]);
            assert(all[j] == strings@[j]@);
            assert(4 + all[j].len() <= strs_len(all.skip(j)));
        }
        let len = strings[i].len();
        push_u32(out, len as u32);
        push_bytes(out, &strings[i]);
        proof {
            let j = i as int;
            lemma_strs_len_split(all.take(j + 1), j);
            assert(all.take(j + 1).take(j) =~= all.take(j));
            assert(all.take(j + 1).skip(j) =~= seq![all[j]]);
            lemma_strs_one(all[j]);
            assert(out@ =~= old(out)@ + enc_strs(all.take(j + 1)));
        }
        i = i + 1;
    }
    proof {
        assert(all.take(n as int) =~= all);
    }
}

/// Appends `n` zero bytes of alignment padding.
#[verifier::loop_isolation(false)]
fn write_zeros(n: usize, out: &mut Vec<u8>)
    ensures
        final(out)@ == old(out)@ + zeros(n as int),
{
    let mut i: usize = 0;
    while i < n
        invariant
            i <= n,
            out@ == old(out)@ + zeros(i as int),
        decreases n - i,
    {
        out.push(0);
        proof {
            assert(out@ =~= old(out)@ + zeros(i as int + 1));
        }
        i = i + 1;
    }
}

/// Appends a complete string pool chunk.
#[verifier::rlimit(60)]
fn write_pool(utf8: bool, strings: &Vec<Vec<u8>>, out: &mut Vec<u8>)
    requires
        8 + pool_hdr_len(ssv(strings@)) <= 0xFFFF,
    ensures
        final(out)@ == old(out)@ + enc(ChunkV::StringPool { utf8, strings: ssv(strings@) }),
{
    let ghost all = ssv(strings@);
    proof {
        lemma_enc_strs_len(all);
        lemma_enc_u32s_len(offsets_of(all));
    }
    let cnt = strings.len();
    let sl = strs_size(strings);
    let pad = ((4 - (sl % 4)) % 4) as usize;
    proof {
        assert(pad == pad4(sl as int));
    }
    let hs = 8 + 12 + 4 * (cnt as u64) + sl + (pad as u64);
    push_u16(out, TAG_STRING_POOL);
    push_u16(out, hs as u16);
    push_u32(out, hs as u32);
    push_u32(out, cnt as u32);
    push_u32(out, 0);
    push_u32(
        out,
        if utf8 {
            1
        } else {
            0
        },
    );
    write_offsets(strings, out);
    write_strs(strings, out);
    write_zeros(pad, out);
    proof {
        let c = ChunkV::StringPool { utf8, strings: all };
        let hdr = pool_hdr(utf8, all);
        assert(hdr.len() == 12 + 4 * all.len() + strs_len(all) + pad4(strs_len(all)));
        assert(enc(c) == enc_with(TAG_STRING_POOL, hdr, Seq::<u8>::empty()));
        assert((8 + hdr.len()) as u16 == hs as u16);
        assert((8 + hdr.len() + Seq::<u8>::empty().len()) as u32 == hs as u32);
        assert(out@ =~= old(out)@ + enc(c));
    }
}

/// Serialized length of the children of a container chunk.
#[verifier::loop_isolation(false)]
pub fn children_size(cs: &Vec<Chunk>) -> (n: u64)
    requires
        wf_children(cvs(cs@)),
        enc_children(cvs(cs@)).len() <= 0xFFFF_FFFF,
    ensures
        n == enc_children(cvs(cs@)).len(),
    decreases *cs,
{
    let ghost csv = cvs(cs@);
    proof {
        lemma_cvs_len(cs@);
    }
    let n = cs.len();
    let mut i: usize = 0;
    let mut total: u64 = 0;
    while i < n
        invariant
            i <= n,
            total == enc_children(csv.take(i as int)).len(),
        decreases n - i,
    {
        proof {
            let j = i as int;
            lemma_cvs_index(cs@, j);
            lemma_wf_children_index(csv, j);
            lemma_enc_children_split(csv.take(j + 1), j);
            assert(csv.take(j + 1).take(j) =~= csv.take(j));
            assert(csv.take(j + 1).skip(j) =~= seq![csv[j]]);
            lemma_enc_children_one(csv[j]);
            lemma_enc_children_split(csv, j + 1);
            lemma_enc_children_len(csv.skip(j + 1));
        }
        let s = cs[i].size();
        proof {
            assert(total + s == enc_children(csv.take(i as int + 1)).len() <= enc_children(
            csv).len());
        }
        total = total + s;
        i = i + 1;
    }
    proof {
        assert(csv.take(n as int) =~= csv);
    }
    total
}

impl Chunk {
    /// The exact number of bytes `write` appends.
    pub fn size(&self) -> (n: u64)
        requires
            wf(cv(*self)),
        ensures
            n == enc(cv(*self)).len(),
        decreases *self,
    {
        proof {
            lemma_enc_len(cv(*self));
        }
        match self {
            Chunk::StringPool { utf8, strings } => {
                proof {
                    lemma_enc_strs_len(ssv(strings@));
                }
                let sl = strs_size(strings);
                let pad = ((4 - (sl % 4)) % 4) as u64;
                20 + 4 * (strings.len() as u64) + sl + pad
            },
            Chunk::Table { children } => 8 + children_size(children),
            Chunk::Package { children, .. } => 16 + children_size(children),
            Chunk::TypeSpec { flags, .. } => 16 + 4 * (flags.len() as u64),
            Chunk::TableType { entries, .. } => 24 + 12 * (entries.len() as u64),
            Chunk::Xml { children } => 8 + children_size(children),
            Chunk::XmlStartNamespace { .. } => 16,
            Chunk::XmlEndNamespace { .. } => 16,
            Chunk::XmlStartElement { .. } => 16,
            Chunk::XmlAttribute { .. } => 28,
            Chunk::XmlEndElement { .. } => 16,
            Chunk::Unknown { payload, .. } => 8 + payload.len() as u64,
        }
    }

    /// Serializes this chunk: appends its header, fields and children, in
    /// order, with lengths recomputed from the actual content.
    #[verifier::rlimit(60)]
    pub fn write(&self, out: &mut Vec<u8>)
        requires
            wf(cv(*self)),
        ensures
            final(out)@ == old(out)@ + enc(cv(*self)),
        decreases *self,
    {
        proof {
            lemma_enc_len(cv(*self));
        }
        match self {
            Chunk::StringPool { utf8, strings } => {
                write_pool(*utf8, strings, out);
            },
            Chunk::Table { children } => {
                let clen = children_size(children);
                push_u16(out, TAG_TABLE);
                push_u16(out, 8);
                push_u32(out, (8 + clen) as u32);
                write_children(children, out);
                proof {
                    let c = cv(*self);
                    assert(enc(c) == enc_with(TAG_TABLE, Seq::<u8>::empty(), enc_children(cvs(
                    children@))));
                    assert(out@ =~= old(out)@ + enc(c));
                }
            },
            Chunk::Xml { children } => {
                let clen = children_size(children);
                push_u16(out, TAG_XML);
                push_u16(out, 8);
                push_u32(out, (8 + clen) as u32);
                write_children(children, out);
                proof {
                    let c = cv(*self);
                    assert(enc(c) == enc_with(TAG_XML, Seq::<u8>::empty(), enc_children(cvs(
                    children@))));
                    assert(out@ =~= old(out)@ + enc(c));
                }
            },
            Chunk::Package { id, name, children } => {
                let clen = children_size(children);
                push_u16(out, TAG_PACKAGE);
                push_u16(out, 16);
                push_u32(out, (16 + clen) as u32);
                push_u32(out, *id);
                push_u32(out, *name);
                write_children(children, out);
                proof {
                    let c = cv(*self);
                    let hdr = le32(*id) + le32(*name);
                    assert(enc(c) == enc_with(TAG_PACKAGE, hdr, enc_children(cvs(children@))));
                    assert((8 + hdr.len()) as u16 == 16u16);
                    assert(out@ =~= old(out)@ + enc(c));
                }
            },
            Chunk::TypeSpec { id, flags } => {
                let hs = 16 + 4 * (flags.len() as u64);
                push_u16(out, TAG_TYPE_SPEC);
                push_u16(out, hs as u16);
                push_u32(out, hs as u32);
                push_u32(out, *id);
                push_u32(out, flags.len() as u32);
                write_u32s(flags, out);
                proof {
                    let c = cv(*self);
                    let hdr = le32(*id) + le32(flags@.len() as u32) + enc_u32s(flags@);
                    lemma_enc_u32s_len(flags@);
                    assert(enc(c) == enc_with(TAG_TYPE_SPEC, hdr, Seq::<u8>::empty()));
                    assert((8 + hdr.len()) as u16 == hs as u16);
                    assert((8 + hdr.len() + Seq::<u8>::empty().len()) as u32 == hs as u32);
                    assert(out@ =~= old(out)@ + enc(c));
                }
            },
            Chunk::TableType { id, name, density, entries } => {
                let hs = 24 + 12 * (entries.len() as u64);
                push_u16(out, TAG_TABLE_TYPE);
                push_u16(out, hs as u16);
                push_u32(out, hs as u32);
                push_u32(out, *id);
                push_u32(out, *name);
                push_u32(out, *density);
                push_u32(out, entries.len() as u32);
                write_entries(entries, out);
                proof {
                    let c = cv(*self);
                    let hdr = le32(*id) + le32(*name) + le32(*density) + le32(
                        entries@.len() as u32,
                    ) + enc_entries(entries@);
                    lemma_enc_entries_len(entries@);
                    assert(enc(c) == enc_with(TAG_TABLE_TYPE, hdr, Seq::<u8>::empty()));
                    assert((8 + hdr.len()) as u16 == hs as u16);
                    assert((8 + hdr.len() + Seq::<u8>::empty().len()) as u32 == hs as u32);
                    assert(out@ =~= old(out)@ + enc(c));
                }
            },
            Chunk::XmlStartNamespace { prefix, uri } => {
                write_two_word(TAG_XML_START_NAMESPACE, *prefix, *uri, out);
                proof {
                    assert(out@ =~= old(out)@ + enc(cv(*self)));
                }
            },
            Chunk::XmlEndNamespace { prefix, uri } => {
                write_two_word(TAG_XML_END_NAMESPACE, *prefix, *uri, out);
                proof {
                    assert(out@ =~= old(out)@ + enc(cv(*self)));
                }
            },
            Chunk::XmlStartElement { ns, name } => {
                write_two_word(TAG_XML_START_ELEMENT, *ns, *name, out);
                proof {
                    assert(out@ =~= old(out)@ + enc(cv(*self)));
                }
            },
            Chunk::XmlEndElement { ns, name } => {
                write_two_word(TAG_XML_END_ELEMENT, *ns, *name, out);
                proof {
                    assert(out@ =~= old(out)@ + enc(cv(*self)));
                }
            },
            Chunk::XmlAttribute { ns, name, raw, typ, data } => {
                push_u16(out, TAG_XML_ATTRIBUTE);
                push_u16(out, 28);
                push_u32(out, 28);
                push_u32(out, *ns);
                push_u32(out, *name);
                push_u32(out, *raw);
                push_u32(out, *typ);
                push_u32(out, *data);
                proof {
                    let c = cv(*self);
                    let hdr = le32(*ns) + le32(*name) + le32(*raw) + le32(*typ) + le32(*data);
                    assert(enc(c) == enc_with(TAG_XML_ATTRIBUTE, hdr, Seq::<u8>::empty()));
                    assert((8 + hdr.len()) as u16 == 28u16);
                    assert((8 + hdr.len() + Seq::<u8>::empty().len()) as u32 == 28u32);
                    assert(out@ =~= old(out)@ + enc(c));
                }
            },
            Chunk::Unknown { tag, header_size, payload } => {
                push_u16(out, *tag);
                push_u16(out, *header_size);
                push_u32(out, (8 + payload.len() as u64) as u32);
                push_bytes(out, payload);
                proof {
                    assert(out@ =~= old(out)@ + enc(cv(*self)));
                }
            },
        }
    }
}

/// Appends a fixed 16-byte leaf chunk with two word fields.
fn write_two_word(tag: u16, a: u32, b: u32, out: &mut Vec<u8>)
    ensures
        final(out)@ == old(out)@ + enc_with(tag, le32(a) + le32(b), Seq::<u8>::empty()),
{
    push_u16(out, tag);
    push_u16(out, 16);
    push_u32(out, 16);
    push_u32(out, a);
    push_u32(out, b);
    proof {
        let hdr = le32(a) + le32(b);
        assert((8 + hdr.len()) as u16 == 16u16);
        assert((8 + hdr.len() + Seq::<u8>::empty().len()) as u32 == 16u32);
        assert(out@ =~= old(out)@ + enc_with(tag, hdr, Seq::<u8>::empty()));
    }
}

/// Serializes each child in order.
#[verifier::loop_isolation(false)]
pub fn write_children(cs: &Vec<Chunk>, out: &mut Vec<u8>)
    requires
        wf_children(cvs(cs@)),
    ensures
        final(out)@ == old(out)@ + enc_children(cvs(cs@)),
    decreases *cs,
{
    let ghost csv = cvs(cs@);
    proof {
        lemma_cvs_len(cs@);
    }
    let n = cs.len();
    let mut i: usize = 0;
    while i < n
        invariant
            i <= n,
            out@ == old(out)@ + enc_children(csv.take(i as int)),
        decreases n - i,
    {
        proof {
            lemma_cvs_index(cs@, i as int);
            lemma_wf_children_index(csv, i as int);
        }
        cs[i].write(out);
        proof {
            let j = i as int;
            lemma_enc_children_split(csv.take(j + 1), j);
            assert(csv.take(j + 1).take(j) =~= csv.take(j));
            assert(csv.take(j + 1).skip(j) =~= seq![csv[j]]);
            lemma_enc_children_one(csv[j]);
            assert(out@ =~= old(out)@ + enc_children(csv.take(j + 1)));
        }
        i = i + 1;
    }
    proof {
        assert(csv.take(n as int) =~= csv);
    }
}

} // verus!
