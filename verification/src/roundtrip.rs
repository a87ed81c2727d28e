//! The round-trip law: a well-formed chunk tree serializes to bytes that
//! parse back, in pass-through mode, to exactly the same tree, consuming
//! exactly the serialized length.

use vstd::prelude::*;
use crate::bytes::{le16, le32, rd16, rd32, lemma_rd16_le16, lemma_rd32_le32};
use crate::chunk::{
    ChunkV, ResEntry, enc, enc_children, enc_entries, enc_strs, enc_u32s, enc_with, known_tag,
    lemma_enc_children_len, lemma_enc_entries_len, lemma_enc_len, lemma_enc_strs_len,
    lemma_enc_u32s_len, lemma_strs_len_split, lemma_strs_one, offsets_of, pad4, pool_hdr,
    pool_hdr_len, strs_len, wf, wf_children, zeros, TAG_PACKAGE, TAG_STRING_POOL, TAG_TABLE,
    TAG_TABLE_TYPE, TAG_TYPE_SPEC, TAG_XML, TAG_XML_ATTRIBUTE, TAG_XML_END_ELEMENT,
    TAG_XML_END_NAMESPACE, TAG_XML_START_ELEMENT, TAG_XML_START_NAMESPACE,
};
use crate::parse::{all_zero, dec_children, dec_chunk, dec_entries, dec_pool, dec_strs, dec_u32s,
    ParseError};

verus! {

/// The bytes of a region equal its image, byte for byte.
proof fn lemma_bytes_pointwise(b: Seq<u8>, pos: int, e: Seq<u8>)
    requires
        0 <= pos,
        pos + e.len() <= b.len(),
        b.subrange(pos, pos + e.len()) == e,
    ensures
        forall|i: int| 0 <= i < e.len() ==> b[pos + i] == #[trigger] e[i],
{
    assert forall|i: int| 0 <= i < e.len() implies b[pos + i] == #[trigger] e[i] by {
        assert(b.subrange(pos, pos + e.len())[i] == b[pos + i]);
    }
}

/// The bytes of a chunk header and its remainder, read back field by field.
proof fn lemma_header_bytes(b: Seq<u8>, pos: int, tag: u16, hs: u16, total: u32, rest: Seq<u8>)
    requires
        0 <= pos,
        pos + 8 + rest.len() <= b.len(),
        b.subrange(pos, pos + 8 + rest.len()) == le16(tag) + le16(hs) + le32(total) + rest,
    ensures
        rd16(b, pos) == tag,
        rd16(b, pos + 2) == hs,
        rd32(b, pos + 4) == total,
        forall|i: int| 0 <= i < rest.len() ==> b[pos + 8 + i] == #[trigger] rest[i],
        b.subrange(pos + 8, pos + 8 + rest.len()) == rest,
{
    let e = le16(tag) + le16(hs) + le32(total) + rest;
    lemma_bytes_pointwise(b, pos, e);
    assert(e[0] == le16(tag)[0] && e[1] == le16(tag)[1]);
    assert(b[pos + 0] == e[0] && b[pos + 1] == e[1]);
    assert(b[pos] == le16(tag)[0] && b[pos + 1] == le16(tag)[1]);
    lemma_rd16_le16(tag, b, pos);
    assert(e[2] == le16(hs)[0] && e[3] == le16(hs)[1]);
    assert(b[pos + 2] == e[2] && b[pos + 3] == e[3]);
    lemma_rd16_le16(hs, b, pos + 2);
    assert(e[4] == le32(total)[0] && e[5] == le32(total)[1] && e[6] == le32(total)[2] && e[7]
        == le32(total)[3]);
    assert(b[pos + 4] == e[4] && b[pos + 5] == e[5] && b[pos + 6] == e[6] && b[pos + 7] == e[7]);
    lemma_rd32_le32(total, b, pos + 4);
    assert forall|i: int| 0 <= i < rest.len() implies b[pos + 8 + i] == #[trigger] rest[i] by {
        assert(e[8 + i] == rest[i]);
        assert(b[pos + (8 + i)] == e[8 + i]);
    }
    assert(b.subrange(pos + 8, pos + 8 + rest.len()) =~= rest);
}

/// A word read from the middle of a region whose bytes are known.
proof fn lemma_word_at(b: Seq<u8>, base: int, rest: Seq<u8>, off: int, v: u32)
    requires
        0 <= base,
        0 <= off,
        off + 4 <= rest.len(),
        base + rest.len() <= b.len(),
        forall|i: int| 0 <= i < rest.len() ==> b[base + i] == #[trigger] rest[i],
        rest[off] == le32(v)[0],
        rest[off + 1] == le32(v)[1],
        rest[off + 2] == le32(v)[2],
        rest[off + 3] == le32(v)[3],
    ensures
        rd32(b, base + off) == v,
{
    assert(b[base + (off + 0)] == rest[off + 0]);
    assert(b[base + (off + 1)] == rest[off + 1]);
    assert(b[base + (off + 2)] == rest[off + 2]);
    assert(b[base + (off + 3)] == rest[off + 3]);
    assert(b[base + off] == le32(v)[0]);
    assert(b[base + off + 1] == le32(v)[1]);
    assert(b[base + off + 2] == le32(v)[2]);
    assert(b[base + off + 3] == le32(v)[3]);
    lemma_rd32_le32(v, b, base + off);
}

/// Words laid out consecutively decode back one by one.
proof fn lemma_dec_enc_u32s(vs: Seq<u32>, b: Seq<u8>, pos: int)
    requires
        0 <= pos,
        pos + 4 * vs.len() <= b.len(),
        b.subrange(pos, pos + 4 * vs.len()) == enc_u32s(vs),
    ensures
        dec_u32s(b, pos, vs.len() as int) == vs,
    decreases vs.len(),
{
    lemma_enc_u32s_len(vs);
    if vs.len() == 0 {
        assert(dec_u32s(b, pos, 0) =~= vs);
    } else {
        let e = enc_u32s(vs);
        lemma_bytes_pointwise(b, pos, e);
        assert(e[0] == le32(vs[0])[0] && e[1] == le32(vs[0])[1] && e[2] == le32(vs[0])[2] && e[3]
            == le32(vs[0])[3]);
        assert(b[pos + 0] == e[0] && b[pos + 1] == e[1] && b[pos + 2] == e[2] && b[pos + 3]
            == e[3]);
        lemma_rd32_le32(vs[0], b, pos);
        lemma_enc_u32s_len(vs.drop_first());
        assert forall|k: int| 0 <= k < 4 * vs.drop_first().len() implies b.subrange(
            pos + 4,
            pos + 4 * vs.len(),
        )[k] == #[trigger] enc_u32s(vs.drop_first())[k] by {
            assert(e[4 + k] == enc_u32s(vs.drop_first())[k]);
            assert(b[pos + (4 + k)] == e[4 + k]);
            assert(b.subrange(pos + 4, pos + 4 * vs.len())[k] == b[pos + 4 + k]);
        }
        assert(b.subrange(pos + 4, pos + 4 * vs.len()) =~= enc_u32s(vs.drop_first()));
        lemma_dec_enc_u32s(vs.drop_first(), b, pos + 4);
        assert forall|i: int| 0 <= i < vs.len() implies dec_u32s(b, pos, vs.len() as int)[i]
            == vs[i] by {
            if i > 0 {
                assert(dec_u32s(b, pos + 4, vs.len() - 1)[i - 1] == vs.drop_first()[i - 1]);
                assert(rd32(b, pos + 4 + 4 * (i - 1)) == vs[i]);
                assert(pos + 4 + 4 * (i - 1) == pos + 4 * i);
            }
        }
        assert(dec_u32s(b, pos, vs.len() as int) =~= vs);
    }
}

/// Resource entries laid out consecutively decode back one by one.
#[verifier::rlimit(40)]
proof fn lemma_dec_enc_entries(es: Seq<ResEntry>, b: Seq<u8>, pos: int)
    requires
        0 <= pos,
        pos + 12 * es.len() <= b.len(),
        b.subrange(pos, pos + 12 * es.len()) == enc_entries(es),
    ensures
        dec_entries(b, pos, es.len() as int) == es,
    decreases es.len(),
{
    lemma_enc_entries_len(es);
    if es.len() == 0 {
        assert(dec_entries(b, pos, 0) =~= es);
    } else {
        let e = enc_entries(es);
        let h = le32(es[0].name) + le32(es[0].typ) + le32(es[0].data);
        lemma_bytes_pointwise(b, pos, e);
        assert forall|i: int| 0 <= i < 12 implies b[pos + i] == #[trigger] h[i] by {
            assert(e[i] == h[i]);
        }
        assert(b[pos + 0] == h[0] && b[pos + 1] == h[1] && b[pos + 2] == h[2] && b[pos + 3]
            == h[3]);
        assert(h[0] == le32(es[0].name)[0] && h[1] == le32(es[0].name)[1] && h[2] == le32(
            es[0].name,
        )[2] && h[3] == le32(es[0].name)[3]);
        lemma_rd32_le32(es[0].name, b, pos);
        assert(b[pos + 4] == h[4] && b[pos + 5] == h[5] && b[pos + 6] == h[6] && b[pos + 7]
            == h[7]);
        assert(h[4] == le32(es[0].typ)[0] && h[5] == le32(es[0].typ)[1] && h[6] == le32(
            es[0].typ,
        )[2] && h[7] == le32(es[0].typ)[3]);
        lemma_rd32_le32(es[0].typ, b, pos + 4);
        assert(b[pos + 8] == h[8] && b[pos + 9] == h[9] && b[pos + 10] == h[10] && b[pos + 11]
            == h[11]);
        assert(h[8] == le32(es[0].data)[0] && h[9] == le32(es[0].data)[1] && h[10] == le32(
            es[0].data,
        )[2] && h[11] == le32(es[0].data)[3]);
        lemma_rd32_le32(es[0].data, b, pos + 8);
        lemma_enc_entries_len(es.drop_first());
        assert forall|k: int| 0 <= k < 12 * es.drop_first().len() implies b.subrange(
            pos + 12,
            pos + 12 * es.len(),
        )[k] == #[trigger] enc_entries(es.drop_first())[k] by {
            assert(e[12 + k] == enc_entries(es.drop_first())[k]);
            assert(b[pos + (12 + k)] == e[12 + k]);
            assert(b.subrange(pos + 12, pos + 12 * es.len())[k] == b[pos + 12 + k]);
        }
        assert(b.subrange(pos + 12, pos + 12 * es.len()) =~= enc_entries(es.drop_first()));
        lemma_dec_enc_entries(es.drop_first(), b, pos + 12);
        assert forall|i: int| 0 <= i < es.len() implies dec_entries(b, pos, es.len() as int)[i]
            == es[i] by {
            if i > 0 {
                assert(dec_entries(b, pos + 12, es.len() - 1)[i - 1] == es.drop_first()[i - 1]);
                assert(pos + 12 + 12 * (i - 1) == pos + 12 * i);
            }
        }
        assert(dec_entries(b, pos, es.len() as int) =~= es);
    }
}

/// The string data region decodes back, entry by entry, with every offset
/// matching the offset table.
#[verifier::rlimit(100)]
proof fn lemma_dec_enc_strs(
    all: Seq<Seq<u8>>,
    i: int,
    b: Seq<u8>,
    sstart: int,
    end: int,
    offpos0: int,
)
    requires
        0 <= i <= all.len(),
        0 <= sstart,
        0 <= offpos0,
        strs_len(all) <= 0xFFFF_FFFF,
        sstart + strs_len(all) <= end <= b.len(),
        forall|j: int|
            0 <= j < all.len() ==> rd32(b, offpos0 + 4 * j) as int == strs_len(
                #[trigger] all.take(j),
            ),
        forall|k: int| 0 <= k < strs_len(all) ==> b[sstart + k] == #[trigger] enc_strs(all)[k],
    ensures
        dec_strs(b, sstart + strs_len(all.take(i)), all.len() - i, end, sstart, offpos0 + 4 * i)
            == Ok::<_, ParseError>((all.skip(i), sstart + strs_len(all))),
    decreases all.len() - i,
{
    lemma_enc_strs_len(all);
    lemma_strs_len_split(all, i);
    lemma_enc_strs_len(all.take(i));
    lemma_enc_strs_len(all.skip(i));
    let pos = sstart + strs_len(all.take(i));
    if i == all.len() {
        assert(all.take(i) =~= all);
        assert(all.skip(i) =~= Seq::<Seq<u8>>::empty());
    } else {
        let s = all[i];
        let tail = all.skip(i);
        assert(tail[0] == s);
        assert(tail.drop_first() =~= all.skip(i + 1));
        lemma_strs_len_split(all.take(i + 1), i);
        assert(all.take(i + 1).take(i) =~= all.take(i));
        assert(all.take(i + 1).skip(i) =~= seq![s]);
        lemma_strs_one(s);
        lemma_strs_len_split(all, i + 1);
        lemma_enc_strs_len(all.take(i + 1));
        lemma_enc_strs_len(all.skip(i + 1));
        let off = strs_len(all.take(i));
        let head = le32(s.len() as u32) + s;
        assert(enc_strs(tail) == head + enc_strs(tail.drop_first()));
        // this string's bytes, relative to the whole region
        assert forall|k: int| 0 <= k < 4 + s.len() implies b[pos + k] == #[trigger] head[k] by {
            assert(enc_strs(all)[off + k] == enc_strs(tail)[k]);
            assert(enc_strs(tail)[k] == head[k]);
            assert(b[sstart + (off + k)] == enc_strs(all)[off + k]);
        }
        // offset check
        assert(rd32(b, offpos0 + 4 * i) as int == off);
        // length word
        assert(b[pos + 0] == head[0] && b[pos + 1] == head[1] && b[pos + 2] == head[2] && b[pos
            + 3] == head[3]);
        assert(head[0] == le32(s.len() as u32)[0] && head[1] == le32(s.len() as u32)[1] && head[2]
            == le32(s.len() as u32)[2] && head[3] == le32(s.len() as u32)[3]);
        lemma_rd32_le32(s.len() as u32, b, pos);
        assert(4 + s.len() <= strs_len(tail));
        assert(s.len() <= 0xFFFF_FFFF);
        assert(rd32(b, pos) as int == s.len());
        // string bytes
        assert forall|k: int| 0 <= k < s.len() implies b[pos + 4 + k] == #[trigger] s[k] by {
            assert(b[pos + (4 + k)] == head[4 + k]);
            assert(head[4 + k] == s[k]);
        }
        assert(b.subrange(pos + 4, pos + 4 + s.len()) =~= s);
        // the rest of the region, by induction
        lemma_dec_enc_strs(all, i + 1, b, sstart, end, offpos0);
        assert(strs_len(all.take(i + 1)) == off + 4 + s.len());
        assert(seq![s] + all.skip(i + 1) =~= all.skip(i));
        assert(dec_strs(b, pos, all.len() - i, end, sstart, offpos0 + 4 * i) == Ok::<
            _,
            ParseError,
        >((all.skip(i), sstart + strs_len(all))));
    }
}

/// A serialized string pool decodes back to itself.
#[verifier::rlimit(100)]
proof fn lemma_dec_enc_pool(utf8: bool, ss: Seq<Seq<u8>>, b: Seq<u8>, pos: int, end: int)
    requires
        0 <= pos,
        8 + pool_hdr_len(ss) <= 0xFFFF,
        pos + 8 + pool_hdr_len(ss) <= end <= b.len(),
        b.subrange(pos, pos + 8 + pool_hdr_len(ss)) == enc(
            ChunkV::StringPool { utf8, strings: ss },
        ),
    ensures
        dec_chunk(b, pos, end, true) == Ok::<_, ParseError>(
            (ChunkV::StringPool { utf8, strings: ss }, pos + 8 + pool_hdr_len(ss)),
        ),
{
    let c = ChunkV::StringPool { utf8, strings: ss };
    let hdr = pool_hdr(utf8, ss);
    let n = ss.len() as int;
    let sl = strs_len(ss);
    let pad = pad4(sl);
    lemma_enc_strs_len(ss);
    lemma_enc_u32s_len(offsets_of(ss));
    assert(hdr.len() == pool_hdr_len(ss));
    let hs = (8 + hdr.len()) as u16;
    let total = (8 + hdr.len()) as u32;
    assert(enc(c) == enc_with(TAG_STRING_POOL, hdr, Seq::<u8>::empty()));
    assert(enc(c) =~= le16(TAG_STRING_POOL) + le16(hs) + le32(total) + hdr);
    lemma_header_bytes(b, pos, TAG_STRING_POOL, hs, total, hdr);
    let hsi = 8 + hdr.len() as int;
    // metadata words
    let flagword: u32 = if utf8 {
        1
    } else {
        0
    };
    let meta = le32(ss.len() as u32) + le32(0) + le32(flagword);
    assert forall|k: int| 0 <= k < 12 implies hdr[k] == #[trigger] meta[k] by {}
    assert(hdr[0] == le32(ss.len() as u32)[0] && hdr[1] == le32(ss.len() as u32)[1] && hdr[2]
        == le32(ss.len() as u32)[2] && hdr[3] == le32(ss.len() as u32)[3]);
    assert(hdr[4] == le32(0)[0] && hdr[5] == le32(0)[1] && hdr[6] == le32(0)[2] && hdr[7] == le32(
        0,
    )[3]);
    assert(hdr[8] == le32(flagword)[0] && hdr[9] == le32(flagword)[1] && hdr[10] == le32(
        flagword,
    )[2] && hdr[11] == le32(flagword)[3]);
    lemma_word_at(b, pos + 8, hdr, 0, ss.len() as u32);
    lemma_word_at(b, pos + 8, hdr, 4, 0);
    lemma_word_at(b, pos + 8, hdr, 8, flagword);
    assert(rd32(b, pos + 8) == ss.len() as u32);
    assert(ss.len() < 0x4000);
    assert(rd32(b, pos + 8) as int == n);
    // the offset table
    let offs = offsets_of(ss);
    assert forall|k: int| 0 <= k < 4 * n implies b.subrange(pos + 20, pos + 20 + 4 * n)[k]
        == #[trigger] enc_u32s(offs)[k] by {
        assert(hdr[12 + k] == enc_u32s(offs)[k]);
        assert(b[pos + 8 + (12 + k)] == hdr[12 + k]);
        assert(b.subrange(pos + 20, pos + 20 + 4 * n)[k] == b[pos + 20 + k]);
    }
    assert(b.subrange(pos + 20, pos + 20 + 4 * n) =~= enc_u32s(offs));
    lemma_dec_enc_u32s(offs, b, pos + 20);
    let sstart = pos + 20 + 4 * n;
    assert forall|j: int| 0 <= j < n implies rd32(b, pos + 20 + 4 * j) as int == strs_len(
        #[trigger] ss.take(j),
    ) by {
        assert(dec_u32s(b, pos + 20, n)[j] == offs[j]);
        assert(offs[j] == strs_len(ss.take(j)) as u32);
        lemma_strs_len_split(ss, j);
        lemma_enc_strs_len(ss.take(j));
        lemma_enc_strs_len(ss.skip(j));
    }
    // the string data
    assert forall|k: int| 0 <= k < sl implies b[sstart + k] == #[trigger] enc_strs(ss)[k] by {
        assert(hdr[12 + 4 * n + k] == enc_strs(ss)[k]);
        assert(b[pos + 8 + (12 + 4 * n + k)] == hdr[12 + 4 * n + k]);
    }
    lemma_dec_enc_strs(ss, 0, b, sstart, pos + hsi, pos + 20);
    assert(ss.take(0) =~= Seq::<Seq<u8>>::empty());
    assert(ss.skip(0) =~= ss);
    assert(dec_strs(b, sstart, n, pos + hsi, sstart, pos + 20) == Ok::<_, ParseError>((
        ss,
        sstart + sl,
    )));
    // the padding
    let q = sstart + sl;
    assert forall|k: int| q <= k < pos + hsi implies b[k] == 0 by {
        let j = k - q;
        assert(hdr[12 + 4 * n + sl + j] == zeros(pad)[j]);
        assert(b[pos + 8 + (12 + 4 * n + sl + j)] == hdr[12 + 4 * n + sl + j]);
        assert(zeros(pad)[j] == 0);
    }
    assert(all_zero(b, q, pos + hsi));
    assert(pos + hsi - q == pad4(q - sstart));
    // assemble
    assert(rd16(b, pos) == TAG_STRING_POOL);
    assert(rd16(b, pos + 2) as int == hsi);
    assert(rd32(b, pos + 4) as int == hsi);
    assert(dec_pool(b, pos, hsi) == Ok::<_, ParseError>((c, pos + hsi)));
}

/// Every well-formed chunk decodes from its own encoding, wherever it sits
/// and whatever follows it.
#[verifier::rlimit(100)]
pub proof fn lemma_dec_enc(c: ChunkV, b: Seq<u8>, pos: int, end: int)
    requires
        wf(c),
        0 <= pos,
        pos + enc(c).len() <= end <= b.len(),
        b.subrange(pos, pos + enc(c).len()) == enc(c),
    ensures
        dec_chunk(b, pos, end, true) == Ok::<_, ParseError>((c, pos + enc(c).len())),
    decreases c, 2int,
{
    lemma_enc_len(c);
    match c {
        ChunkV::StringPool { utf8, strings } => {
            assert(b.subrange(pos, pos + 8 + pool_hdr_len(strings)) == enc(c));
            lemma_dec_enc_pool(utf8, strings, b, pos, end);
        },
        ChunkV::Table { children } => {
            lemma_dec_enc_container(c, TAG_TABLE, Seq::<u8>::empty(), children, b, pos, end);
        },
        ChunkV::Xml { children } => {
            lemma_dec_enc_container(c, TAG_XML, Seq::<u8>::empty(), children, b, pos, end);
        },
        ChunkV::Package { id, name, children } => {
            lemma_dec_enc_container(c, TAG_PACKAGE, le32(id) + le32(name), children, b, pos, end);
        },
        ChunkV::TypeSpec { id, flags } => {
            let hdr = le32(id) + le32(flags.len() as u32) + enc_u32s(flags);
            lemma_enc_u32s_len(flags);
            let hs = (8 + hdr.len()) as u16;
            let total = (8 + hdr.len()) as u32;
            assert(enc(c) == enc_with(TAG_TYPE_SPEC, hdr, Seq::<u8>::empty()));
            assert(enc(c) =~= le16(TAG_TYPE_SPEC) + le16(hs) + le32(total) + hdr);
            lemma_header_bytes(b, pos, TAG_TYPE_SPEC, hs, total, hdr);
            let w = le32(id) + le32(flags.len() as u32);
            assert(hdr[0] == w[0] && hdr[1] == w[1] && hdr[2] == w[2] && hdr[3] == w[3]);
            assert(hdr[4] == w[4] && hdr[5] == w[5] && hdr[6] == w[6] && hdr[7] == w[7]);
            assert(w[0] == le32(id)[0] && w[1] == le32(id)[1] && w[2] == le32(id)[2] && w[3]
                == le32(id)[3]);
            assert(w[4] == le32(flags.len() as u32)[0] && w[5] == le32(flags.len() as u32)[1]
                && w[6] == le32(flags.len() as u32)[2] && w[7] == le32(flags.len() as u32)[3]);
            lemma_word_at(b, pos + 8, hdr, 0, id);
            lemma_word_at(b, pos + 8, hdr, 4, flags.len() as u32);
            assert forall|k: int| 0 <= k < 4 * flags.len() implies b.subrange(
                pos + 16,
                pos + 16 + 4 * flags.len(),
            )[k] == #[trigger] enc_u32s(flags)[k] by {
                assert(hdr[8 + k] == enc_u32s(flags)[k]);
                assert(b[pos + 8 + (8 + k)] == hdr[8 + k]);
                assert(b.subrange(pos + 16, pos + 16 + 4 * flags.len())[k] == b[pos + 16 + k]);
            }
            assert(b.subrange(pos + 16, pos + 16 + 4 * flags.len()) =~= enc_u32s(flags));
            lemma_dec_enc_u32s(flags, b, pos + 16);
        },
        ChunkV::TableType { id, name, density, entries } => {
            let hdr = le32(id) + le32(name) + le32(density) + le32(entries.len() as u32)
                + enc_entries(entries);
            lemma_enc_entries_len(entries);
            let hs = (8 + hdr.len()) as u16;
            let total = (8 + hdr.len()) as u32;
            assert(enc(c) == enc_with(TAG_TABLE_TYPE, hdr, Seq::<u8>::empty()));
            assert(enc(c) =~= le16(TAG_TABLE_TYPE) + le16(hs) + le32(total) + hdr);
            lemma_header_bytes(b, pos, TAG_TABLE_TYPE, hs, total, hdr);
            let w = le32(id) + le32(name) + le32(density) + le32(entries.len() as u32);
            assert forall|k: int| 0 <= k < 16 implies hdr[k] == #[trigger] w[k] by {}
            assert(w[0] == le32(id)[0] && w[1] == le32(id)[1] && w[2] == le32(id)[2] && w[3]
                == le32(id)[3]);
            assert(w[4] == le32(name)[0] && w[5] == le32(name)[1] && w[6] == le32(name)[2] && w[7]
                == le32(name)[3]);
            assert(w[8] == le32(density)[0] && w[9] == le32(density)[1] && w[10] == le32(
                density,
            )[2] && w[11] == le32(density)[3]);
            assert(w[12] == le32(entries.len() as u32)[0] && w[13] == le32(entries.len() as u32)[1]
                && w[14] == le32(entries.len() as u32)[2] && w[15] == le32(
                entries.len() as u32,
            )[3]);
            lemma_word_at(b, pos + 8, hdr, 0, id);
            lemma_word_at(b, pos + 8, hdr, 4, name);
            lemma_word_at(b, pos + 8, hdr, 8, density);
            lemma_word_at(b, pos + 8, hdr, 12, entries.len() as u32);
            assert forall|k: int| 0 <= k < 12 * entries.len() implies b.subrange(
                pos + 24,
                pos + 24 + 12 * entries.len(),
            )[k] == #[trigger] enc_entries(entries)[k] by {
                assert(hdr[16 + k] == enc_entries(entries)[k]);
                assert(b[pos + 8 + (16 + k)] == hdr[16 + k]);
                assert(b.subrange(pos + 24, pos + 24 + 12 * entries.len())[k] == b[pos + 24 + k]);
            }
            assert(b.subrange(pos + 24, pos + 24 + 12 * entries.len()) =~= enc_entries(entries));
            lemma_dec_enc_entries(entries, b, pos + 24);
        },
        ChunkV::XmlStartNamespace { prefix, uri } => {
            lemma_dec_enc_two_word(c, TAG_XML_START_NAMESPACE, prefix, uri, b, pos, end);
        },
        ChunkV::XmlEndNamespace { prefix, uri } => {
            lemma_dec_enc_two_word(c, TAG_XML_END_NAMESPACE, prefix, uri, b, pos, end);
        },
        ChunkV::XmlStartElement { ns, name } => {
            lemma_dec_enc_two_word(c, TAG_XML_START_ELEMENT, ns, name, b, pos, end);
        },
        ChunkV::XmlEndElement { ns, name } => {
            lemma_dec_enc_two_word(c, TAG_XML_END_ELEMENT, ns, name, b, pos, end);
        },
        ChunkV::XmlAttribute { ns, name, raw, typ, data } => {
            let hdr = le32(ns) + le32(name) + le32(raw) + le32(typ) + le32(data);
            let hs = (8 + hdr.len()) as u16;
            let total = (8 + hdr.len()) as u32;
            assert(enc(c) == enc_with(TAG_XML_ATTRIBUTE, hdr, Seq::<u8>::empty()));
            assert(enc(c) =~= le16(TAG_XML_ATTRIBUTE) + le16(hs) + le32(total) + hdr);
            lemma_header_bytes(b, pos, TAG_XML_ATTRIBUTE, hs, total, hdr);
            assert(hdr[0] == le32(ns)[0] && hdr[1] == le32(ns)[1] && hdr[2] == le32(ns)[2] && hdr[3]
                == le32(ns)[3]);
            assert(hdr[4] == le32(name)[0] && hdr[5] == le32(name)[1] && hdr[6] == le32(name)[2]
                && hdr[7] == le32(name)[3]);
            assert(hdr[8] == le32(raw)[0] && hdr[9] == le32(raw)[1] && hdr[10] == le32(raw)[2]
                && hdr[11] == le32(raw)[3]);
            assert(hdr[12] == le32(typ)[0] && hdr[13] == le32(typ)[1] && hdr[14] == le32(typ)[2]
                && hdr[15] == le32(typ)[3]);
            assert(hdr[16] == le32(data)[0] && hdr[17] == le32(data)[1] && hdr[18] == le32(data)[2]
                && hdr[19] == le32(data)[3]);
            lemma_word_at(b, pos + 8, hdr, 0, ns);
            lemma_word_at(b, pos + 8, hdr, 4, name);
            lemma_word_at(b, pos + 8, hdr, 8, raw);
            lemma_word_at(b, pos + 8, hdr, 12, typ);
            lemma_word_at(b, pos + 8, hdr, 16, data);
        },
        ChunkV::Unknown { tag, header_size, payload } => {
            let total = (8 + payload.len()) as u32;
            assert(enc(c) == le16(tag) + le16(header_size) + le32(total) + payload);
            lemma_header_bytes(b, pos, tag, header_size, total, payload);
            assert(!known_tag(rd16(b, pos)));
            assert(b.subrange(pos + 8, pos + 8 + payload.len()) == payload);
        },
    }
}

/// A container chunk (a table, a package, a document) decodes from its
/// encoding: the fixed header fields, then the children, exactly filling
/// the declared total length.
#[verifier::rlimit(100)]
proof fn lemma_dec_enc_container(
    c: ChunkV,
    tag: u16,
    hdr: Seq<u8>,
    children: Seq<ChunkV>,
    b: Seq<u8>,
    pos: int,
    end: int,
)
    requires
        wf(c),
        c matches ChunkV::Table { children: cc } ==> cc == children && tag == TAG_TABLE && hdr
            =~= Seq::<u8>::empty(),
        c matches ChunkV::Xml { children: cc } ==> cc == children && tag == TAG_XML && hdr
            =~= Seq::<u8>::empty(),
        c matches ChunkV::Package { id, name, children: cc } ==> cc == children && tag
            == TAG_PACKAGE && hdr =~= le32(id) + le32(name),
        c is Table || c is Xml || c is Package,
        enc(c) == enc_with(tag, hdr, enc_children(children)),
        wf_children(children),
        0 <= pos,
        pos + enc(c).len() <= end <= b.len(),
        b.subrange(pos, pos + enc(c).len()) == enc(c),
    ensures
        dec_chunk(b, pos, end, true) == Ok::<_, ParseError>((c, pos + enc(c).len())),
    decreases c, 1int,
{
    lemma_enc_len(c);
    lemma_enc_children_len(children);
    let body = enc_children(children);
    let rest = hdr + body;
    let hs = (8 + hdr.len()) as u16;
    let total = (8 + hdr.len() + body.len()) as u32;
    assert(enc(c) =~= le16(tag) + le16(hs) + le32(total) + rest);
    lemma_header_bytes(b, pos, tag, hs, total, rest);
    let cstart = pos + 8 + hdr.len() as int;
    let cend = pos + enc(c).len();
    assert forall|k: int| 0 <= k < body.len() implies b.subrange(cstart, cend)[k]
        == #[trigger] body[k] by {
        assert(rest[hdr.len() + k] == body[k]);
        assert(b[pos + 8 + (hdr.len() + k)] == rest[hdr.len() + k]);
        assert(b.subrange(cstart, cend)[k] == b[cstart + k]);
    }
    assert(b.subrange(cstart, cend) =~= body);
    lemma_dec_enc_children(children, b, cstart, cend);
    match c {
        ChunkV::Package { id, name, .. } => {
            let w = le32(id) + le32(name);
            assert forall|k: int| 0 <= k < 8 implies rest[k] == #[trigger] w[k] by {
                assert(rest[k] == hdr[k]);
            }
            assert(w[0] == le32(id)[0] && w[1] == le32(id)[1] && w[2] == le32(id)[2] && w[3]
                == le32(id)[3]);
            assert(w[4] == le32(name)[0] && w[5] == le32(name)[1] && w[6] == le32(name)[2] && w[7]
                == le32(name)[3]);
            lemma_word_at(b, pos + 8, rest, 0, id);
            lemma_word_at(b, pos + 8, rest, 4, name);
        },
        _ => {},
    }
}

/// A fixed sixteen-byte leaf with two word fields decodes from its
/// encoding.
proof fn lemma_dec_enc_two_word(c: ChunkV, tag: u16, a: u32, d: u32, b: Seq<u8>, pos: int, end: int)
    requires
        enc(c) == enc_with(tag, le32(a) + le32(d), Seq::<u8>::empty()),
        known_tag(tag),
        tag == TAG_XML_START_NAMESPACE ==> c == (ChunkV::XmlStartNamespace { prefix: a, uri: d }),
        tag == TAG_XML_END_NAMESPACE ==> c == (ChunkV::XmlEndNamespace { prefix: a, uri: d }),
        tag == TAG_XML_START_ELEMENT ==> c == (ChunkV::XmlStartElement { ns: a, name: d }),
        tag == TAG_XML_END_ELEMENT ==> c == (ChunkV::XmlEndElement { ns: a, name: d }),
        tag == TAG_XML_START_NAMESPACE || tag == TAG_XML_END_NAMESPACE || tag
            == TAG_XML_START_ELEMENT || tag == TAG_XML_END_ELEMENT,
        0 <= pos,
        pos + 16 <= end <= b.len(),
        enc(c).len() == 16,
        b.subrange(pos, pos + 16) == enc(c),
    ensures
        dec_chunk(b, pos, end, true) == Ok::<_, ParseError>((c, pos + 16)),
{
    let hdr = le32(a) + le32(d);
    assert(enc(c) =~= le16(tag) + le16(16u16) + le32(16u32) + hdr);
    lemma_header_bytes(b, pos, tag, 16, 16, hdr);
    assert(hdr[0] == le32(a)[0] && hdr[1] == le32(a)[1] && hdr[2] == le32(a)[2] && hdr[3] == le32(
        a,
    )[3]);
    assert(hdr[4] == le32(d)[0] && hdr[5] == le32(d)[1] && hdr[6] == le32(d)[2] && hdr[7] == le32(
        d,
    )[3]);
    lemma_word_at(b, pos + 8, hdr, 0, a);
    lemma_word_at(b, pos + 8, hdr, 4, d);
}

/// A serialized child sequence decodes back child by child, consuming its
/// region exactly.
proof fn lemma_dec_enc_children(cs: Seq<ChunkV>, b: Seq<u8>, pos: int, end: int)
    requires
        wf_children(cs),
        0 <= pos,
        end == pos + enc_children(cs).len(),
        end <= b.len(),
        b.subrange(pos, end) == enc_children(cs),
    ensures
        dec_children(b, pos, end, true) == Ok::<_, ParseError>(cs),
    decreases cs, 0int,
{
    lemma_enc_children_len(cs);
    if cs.len() == 0 {
        assert(dec_children(b, pos, end, true) == Ok::<_, ParseError>(Seq::<ChunkV>::empty()));
        assert(cs =~= Seq::<ChunkV>::empty());
    } else {
        let c0 = cs[0];
        let rest = cs.drop_first();
        lemma_enc_len(c0);
        lemma_enc_children_len(rest);
        assert(enc_children(cs) == enc(c0) + enc_children(rest));
        lemma_bytes_pointwise(b, pos, enc_children(cs));
        assert forall|k: int| 0 <= k < enc(c0).len() implies b.subrange(pos, pos + enc(c0).len())[k]
            == #[trigger] enc(c0)[k] by {
            assert(enc_children(cs)[k] == enc(c0)[k]);
            assert(b[pos + k] == enc_children(cs)[k]);
            assert(b.subrange(pos, pos + enc(c0).len())[k] == b[pos + k]);
        }
        assert(b.subrange(pos, pos + enc(c0).len()) =~= enc(c0));
        lemma_dec_enc(c0, b, pos, end);
        let q = pos + enc(c0).len();
        assert forall|k: int| 0 <= k < enc_children(rest).len() implies b.subrange(q, end)[k]
            == #[trigger] enc_children(rest)[k] by {
            assert(enc_children(cs)[enc(c0).len() + k] == enc_children(rest)[k]);
            assert(b[pos + (enc(c0).len() + k)] == enc_children(cs)[enc(c0).len() + k]);
            assert(b.subrange(q, end)[k] == b[q + k]);
        }
        assert(b.subrange(q, end) =~= enc_children(rest));
        lemma_dec_enc_children(rest, b, q, end);
        assert(seq![c0] + rest =~= cs);
    }
}

/// Round-trip: a well-formed chunk tree's serialized bytes parse back to
/// the same tree, consuming exactly the serialized length.
pub proof fn lemma_round_trip(c: ChunkV)
    requires
        wf(c),
    ensures
        dec_chunk(enc(c), 0, enc(c).len() as int, true) == Ok::<_, ParseError>(
            (c, enc(c).len() as int),
        ),
{
    let b = enc(c);
    assert(b.subrange(0, b.len() as int) =~= b);
    lemma_dec_enc(c, b, 0, b.len() as int);
}

} // verus!
