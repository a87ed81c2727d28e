//! The parser: `dec_chunk` is the specification-level decoder and
//! `Chunk::parse` the executable one, proved to return exactly what the
//! specification decoder returns, error for error.
//!
//! A chunk is rejected with `Truncated` when fewer bytes remain than its
//! header declares, with `InvalidHeader` when its declared lengths are
//! inconsistent (header shorter than the minimum for the tag, fields
//! overrunning the declared bounds, children overlapping), and with
//! `UnknownChunkType` when the tag is unrecognized and the caller did not
//! opt into pass-through mode, which preserves unknown chunks verbatim.

use vstd::prelude::*;
use crate::bytes::{rd16, rd32, read_u16, read_u32};
use crate::chunk::{
    Chunk, ChunkV, ResEntry, cv, cvs, pad4, TAG_PACKAGE, TAG_STRING_POOL, TAG_TABLE,
    TAG_TABLE_TYPE, TAG_TYPE_SPEC, TAG_XML, TAG_XML_ATTRIBUTE, TAG_XML_END_ELEMENT,
    TAG_XML_END_NAMESPACE, TAG_XML_START_ELEMENT, TAG_XML_START_NAMESPACE,
};

verus! {

/// Why a byte stream was rejected.
#[derive(Debug, Clone, Copy, PartialEq, Eq, Structural)]
pub enum ParseError {
    /// Fewer bytes remain than a chunk header declares.
    Truncated,
    /// A declared length is inconsistent with the tag or its fields.
    InvalidHeader,
    /// An unrecognized tag outside pass-through mode.
    UnknownChunkType,
}

/// `n` consecutive little-endian words starting at `pos`.
pub open spec fn dec_u32s(b: Seq<u8>, pos: int, n: int) -> Seq<u32> {
    Seq::new(n as nat, |i| rd32(b, pos + 4 * i))
}

/// `n` consecutive twelve-byte resource entries starting at `pos`.
pub open spec fn dec_entries(b: Seq<u8>, pos: int, n: int) -> Seq<ResEntry> {
    Seq::new(
        n as nat,
        |i|
            ResEntry {
                name: rd32(b, pos + 12 * i),
                typ: rd32(b, pos + 12 * i + 4),
                data: rd32(b, pos + 12 * i + 8),
            },
    )
}

pub open spec fn all_zero(b: Seq<u8>, from: int, to: int) -> bool {
    forall|k: int| from <= k < to ==> b[k] == 0
}

/// `cnt` length-prefixed strings starting at `pos`, each checked against
/// its entry in the offset table at `offpos`; returns the strings and the
/// position just past the last one.
pub open spec fn dec_strs(
    b: Seq<u8>,
    pos: int,
    cnt: int,
    end: int,
    sstart: int,
    offpos: int,
) -> Result<(Seq<Seq<u8>>, int), ParseError>
    decreases cnt,
{
    if cnt <= 0 {
        Ok((Seq::empty(), pos))
    } else if rd32(b, offpos) as int != pos - sstart {
        Err(ParseError::InvalidHeader)
    } else if pos + 4 > end {
        Err(ParseError::InvalidHeader)
    } else {
        let l = rd32(b, pos) as int;
        if pos + 4 + l > end {
            Err(ParseError::InvalidHeader)
        } else {
            match dec_strs(b, pos + 4 + l, cnt - 1, end, sstart, offpos + 4) {
                Ok((ss, q)) => Ok((seq![b.subrange(pos + 4, pos + 4 + l)] + ss, q)),
                Err(e) => Err(e),
            }
        }
    }
}

/// A string pool's fields: counts and flags, the offset table, the string
/// data, and zero padding up to the declared header length.
pub open spec fn dec_pool(b: Seq<u8>, pos: int, hs: int) -> Result<(ChunkV, int), ParseError> {
    if hs < 20 {
        Err(ParseError::InvalidHeader)
    } else {
        let cnt = rd32(b, pos + 8) as int;
        let style = rd32(b, pos + 12);
        let flags = rd32(b, pos + 16);
        if style != 0 || (flags != 0 && flags != 1) {
            Err(ParseError::InvalidHeader)
        } else if 20 + 4 * cnt > hs {
            Err(ParseError::InvalidHeader)
        } else {
            let sstart = pos + 20 + 4 * cnt;
            match dec_strs(b, sstart, cnt, pos + hs, sstart, pos + 20) {
                Ok((ss, q)) => {
                    if pos + hs - q == pad4(q - sstart) && all_zero(b, q, pos + hs) {
                        Ok((ChunkV::StringPool { utf8: flags == 1, strings: ss }, pos + hs))
                    } else {
                        Err(ParseError::InvalidHeader)
                    }
                },
                Err(e) => Err(e),
            }
        }
    }
}

/// Decodes the chunk whose header sits at `pos`, reading no byte at or
/// past `end`.
pub open spec fn dec_chunk(b: Seq<u8>, pos: int, end: int, pass: bool) -> Result<
    (ChunkV, int),
    ParseError,
>
    decreases end - pos, 0int,
{
    if pos + 8 > end {
        Err(ParseError::Truncated)
    } else {
        let tag = rd16(b, pos);
        let hs = rd16(b, pos + 2) as int;
        let total = rd32(b, pos + 4) as int;
        if hs < 8 || total < hs {
            Err(ParseError::InvalidHeader)
        } else if pos + total > end {
            Err(ParseError::Truncated)
        } else if tag == TAG_STRING_POOL {
            if hs != total {
                Err(ParseError::InvalidHeader)
            } else {
                dec_pool(b, pos, hs)
            }
        } else if tag == TAG_TABLE || tag == TAG_XML {
            if hs != 8 {
                Err(ParseError::InvalidHeader)
            } else {
                match dec_children(b, pos + 8, pos + total, pass) {
                    Ok(cs) => Ok(
                        (
                            if tag == TAG_TABLE {
                                ChunkV::Table { children: cs }
                            } else {
                                ChunkV::Xml { children: cs }
                            },
                            pos + total,
                        ),
                    ),
                    Err(e) => Err(e),
                }
            }
        } else if tag == TAG_PACKAGE {
            if hs != 16 {
                Err(ParseError::InvalidHeader)
            } else {
                match dec_children(b, pos + 16, pos + total, pass) {
                    Ok(cs) => Ok(
                        (
                            ChunkV::Package {
                                id: rd32(b, pos + 8),
                                name: rd32(b, pos + 12),
                                children: cs,
                            },
                            pos + total,
                        ),
                    ),
                    Err(e) => Err(e),
                }
            }
        } else if tag == TAG_TYPE_SPEC {
            if hs != total || hs < 16 {
                Err(ParseError::InvalidHeader)
            } else {
                let n = rd32(b, pos + 12) as int;
                if hs != 16 + 4 * n {
                    Err(ParseError::InvalidHeader)
                } else {
                    Ok(
                        (
                            ChunkV::TypeSpec { id: rd32(b, pos + 8), flags: dec_u32s(b, pos + 16, n) },
                            pos + total,
                        ),
                    )
                }
            }
        } else if tag == TAG_TABLE_TYPE {
            if hs != total || hs < 24 {
                Err(ParseError::InvalidHeader)
            } else {
                let n = rd32(b, pos + 20) as int;
                if hs != 24 + 12 * n {
                    Err(ParseError::InvalidHeader)
                } else {
                    Ok(
                        (
                            ChunkV::TableType {
                                id: rd32(b, pos + 8),
                                name: rd32(b, pos + 12),
                                density: rd32(b, pos + 16),
                                entries: dec_entries(b, pos + 24, n),
                            },
                            pos + total,
                        ),
                    )
                }
            }
        } else if tag == TAG_XML_START_NAMESPACE || tag == TAG_XML_END_NAMESPACE || tag
            == TAG_XML_START_ELEMENT || tag == TAG_XML_END_ELEMENT {
            if hs != total || hs != 16 {
                Err(ParseError::InvalidHeader)
            } else {
                let a = rd32(b, pos + 8);
                let c = rd32(b, pos + 12);
                Ok(
                    (
                        if tag == TAG_XML_START_NAMESPACE {
                            ChunkV::XmlStartNamespace { prefix: a, uri: c }
                        } else if tag == TAG_XML_END_NAMESPACE {
                            ChunkV::XmlEndNamespace { prefix: a, uri: c }
                        } else if tag == TAG_XML_START_ELEMENT {
                            ChunkV::XmlStartElement { ns: a, name: c }
                        } else {
                            ChunkV::XmlEndElement { ns: a, name: c }
                        },
                        pos + total,
                    ),
                )
            }
        } else if tag == TAG_XML_ATTRIBUTE {
            if hs != total || hs != 28 {
                Err(ParseError::InvalidHeader)
            } else {
                Ok(
                    (
                        ChunkV::XmlAttribute {
                            ns: rd32(b, pos + 8),
                            name: rd32(b, pos + 12),
                            raw: rd32(b, pos + 16),
                            typ: rd32(b, pos + 20),
                            data: rd32(b, pos + 24),
                        },
                        pos + total,
                    ),
                )
            }
        } else if pass {
            Ok(
                (
                    ChunkV::Unknown {
                        tag,
                        header_size: hs as u16,
                        payload: b.subrange(pos + 8, pos + total),
                    },
                    pos + total,
                ),
            )
        } else {
            Err(ParseError::UnknownChunkType)
        }
    }
}

/// Decodes children until `end` is consumed exactly; a child that would
/// overrun its parent's declared bounds is a format violation.
pub open spec fn dec_children(b: Seq<u8>, pos: int, end: int, pass: bool) -> Result<
    Seq<ChunkV>,
    ParseError,
>
    decreases end - pos, 1int,
{
    if pos >= end {
        Ok(Seq::empty())
    } else {
        match dec_chunk(b, pos, end, pass) {
            Ok((c, q)) => if pos + 8 <= q && q <= end {
                match dec_children(b, q, end, pass) {
                    Ok(cs) => Ok(seq![c] + cs),
                    Err(e) => Err(e),
                }
            } else {
                Err(ParseError::InvalidHeader)
            },
            Err(e) => Err(e),
        }
    }
}

// --- executable parser ---------------------------------------------------

/// Copies `b[from..to]`.
#[verifier::loop_isolation(false)]
fn copy_range(b: &Vec<u8>, from: usize, to: usize) -> (r: Vec<u8>)
    requires
        from <= to <= b@.len(),
    ensures
        r@ == b@.subrange(from as int, to as int),
{
    let mut r: Vec<u8> = Vec::new();
    let mut i: usize = from;
    while i < to
        invariant
            from <= i <= to,
            r@ == b@.subrange(from as int, i as int),
        decreases to - i,
    {
        r.push(b[i]);
        proof {
            assert(r@ =~= b@.subrange(from as int, i as int + 1));
        }
        i = i + 1;
    }
    r
}

/// Tests that `b[from..to]` is all zero padding.
#[verifier::loop_isolation(false)]
fn check_zeros(b: &Vec<u8>, from: usize, to: usize) -> (r: bool)
    requires
        from <= to <= b@.len(),
    ensures
        r == all_zero(b@, from as int, to as int),
{
    let mut i: usize = from;
    while i < to
        invariant
            from <= i <= to,
            all_zero(b@, from as int, i as int),
        decreases to - i,
    {
        if b[i] != 0 {
            return false;
        }
        i = i + 1;
    }
    true
}

/// Reads `n` consecutive words.
#[verifier::loop_isolation(false)]
fn read_u32s_vec(b: &Vec<u8>, pos: usize, n: usize) -> (r: Vec<u32>)
    requires
        pos + 4 * n <= b@.len(),
    ensures
        r@ == dec_u32s(b@, pos as int, n as int),
{
    let blen: usize = b.len();
    let mut r: Vec<u32> = Vec::new();
    let mut i: usize = 0;
    while i < n
        invariant
            i <= n,
            r@ == dec_u32s(b@, pos as int, i as int),
        decreases n - i,
    {
        let v = read_u32(b, pos + 4 * i);
        r.push(v);
        proof {
            assert(r@ =~= dec_u32s(b@, pos as int, i as int + 1));
        }
        i = i + 1;
    }
    r
}

/// Reads `n` consecutive resource entries.
#[verifier::loop_isolation(false)]
fn read_entries_vec(b: &Vec<u8>, pos: usize, n: usize) -> (r: Vec<ResEntry>)
    requires
        pos + 12 * n <= b@.len(),
    ensures
        r@ == dec_entries(b@, pos as int, n as int),
{
    let blen: usize = b.len();
    let mut r: Vec<ResEntry> = Vec::new();
    let mut i: usize = 0;
    while i < n
        invariant
            i <= n,
            r@ == dec_entries(b@, pos as int, i as int),
        decreases n - i,
    {
        let name = read_u32(b, pos + 12 * i);
        let typ = read_u32(b, pos + 12 * i + 4);
        let data = read_u32(b, pos + 12 * i + 8);
        r.push(ResEntry { name, typ, data });
        proof {
            assert(r@ =~= dec_entries(b@, pos as int, i as int + 1));
        }
        i = i + 1;
    }
    r
}

/// Executable mirror of `dec_strs`.
fn parse_strs(b: &Vec<u8>, pos: usize, cnt: usize, end: usize, sstart: usize, offpos: usize) -> (r:
    Result<(Vec<Vec<u8>>, usize), ParseError>)
    requires
        sstart <= pos,
        pos <= end <= b@.len(),
        offpos + 4 * cnt <= b@.len(),
    ensures
        match r {
            Ok((ss, q)) => dec_strs(
                b@,
                pos as int,
                cnt as int,
                end as int,
                sstart as int,
                offpos as int,
            ) == Ok::<_, ParseError>((crate::write::ssv(ss@), q as int)) && pos <= q <= end,
            Err(e) => dec_strs(
                b@,
                pos as int,
                cnt as int,
                end as int,
                sstart as int,
                offpos as int,
            ) == Err::<(Seq<Seq<u8>>, int), _>(e),
        },
    decreases cnt,
{
    let blen: usize = b.len();
    if cnt == 0 {
        let ss: Vec<Vec<u8>> = Vec::new();
        proof {
            assert(crate::write::ssv(ss@) =~= Seq::<Seq<u8>>::empty());
        }
        Ok((ss, pos))
    } else {
        let off = read_u32(b, offpos);
        if off as u64 != (pos - sstart) as u64 {
            return Err(ParseError::InvalidHeader);
        }
        if end - pos < 4 {
            return Err(ParseError::InvalidHeader);
        }
        let l = read_u32(b, pos) as usize;
        if l > end - pos - 4 {
            return Err(ParseError::InvalidHeader);
        }
        let s = copy_range(b, pos + 4, pos + 4 + l);
        match parse_strs(b, pos + 4 + l, cnt - 1, end, sstart, offpos + 4) {
            Ok((mut ss, q)) => {
                let ghost restv = ss@;
                ss.insert(0, s);
                proof {
                    assert(ss@ =~= seq![s] + restv);
                    assert(crate::write::ssv(ss@) =~= seq![s@] + crate::write::ssv(restv));
                }
                Ok((ss, q))
            },
            Err(e) => Err(e),
        }
    }
}

/// Executable mirror of `dec_pool`.
fn parse_pool(b: &Vec<u8>, pos: usize, hs: usize) -> (r: Result<(Chunk, usize), ParseError>)
    requires
        8 <= hs,
        pos + hs <= b@.len(),
    ensures
        match r {
            Ok((c, q)) => dec_pool(b@, pos as int, hs as int) == Ok::<_, ParseError>(
                (cv(c), q as int),
            ) && pos + 8 <= q <= pos + hs,
            Err(e) => dec_pool(b@, pos as int, hs as int) == Err::<(ChunkV, int), _>(e),
        },
{
    let blen: usize = b.len();
    if hs < 20 {
        return Err(ParseError::InvalidHeader);
    }
    let cnt32 = read_u32(b, pos + 8);
    let style = read_u32(b, pos + 12);
    let flags = read_u32(b, pos + 16);
    if style != 0 || (flags != 0 && flags != 1) {
        return Err(ParseError::InvalidHeader);
    }
    let cnt = cnt32 as usize;
    if 20 + 4 * (cnt as u64) > hs as u64 {
        return Err(ParseError::InvalidHeader);
    }
    let sstart = pos + 20 + 4 * cnt;
    match parse_strs(b, sstart, cnt, pos + hs, sstart, pos + 20) {
        Ok((ss, q)) => {
            let rem = (q - sstart) % 4;
            let pad = (4 - rem) % 4;
            proof {
                assert(pad == pad4(q as int - sstart as int));
            }
            if pos + hs - q != pad {
                return Err(ParseError::InvalidHeader);
            }
            if !check_zeros(b, q, pos + hs) {
                return Err(ParseError::InvalidHeader);
            }
            Ok((Chunk::StringPool { utf8: flags == 1, strings: ss }, pos + hs))
        },
        Err(e) => Err(e),
    }
}

/// Executable mirror of `dec_chunk`.
#[verifier::rlimit(80)]
fn parse_chunk(b: &Vec<u8>, pos: usize, end: usize, pass: bool) -> (r: Result<
    (Chunk, usize),
    ParseError,
>)
    requires
        pos <= end <= b@.len(),
    ensures
        match r {
            Ok((c, q)) => dec_chunk(b@, pos as int, end as int, pass) == Ok::<_, ParseError>(
                (cv(c), q as int),
            ) && pos + 8 <= q <= end,
            Err(e) => dec_chunk(b@, pos as int, end as int, pass) == Err::<(ChunkV, int), _>(e),
        },
    decreases end - pos, 0int,
{
    let blen: usize = b.len();
    if end - pos < 8 {
        return Err(ParseError::Truncated);
    }
    let tag = read_u16(b, pos);
    let hs16 = read_u16(b, pos + 2);
    let hs = hs16 as usize;
    let total32 = read_u32(b, pos + 4);
    let total = total32 as usize;
    if hs < 8 || total < hs {
        return Err(ParseError::InvalidHeader);
    }
    if total > end - pos {
        return Err(ParseError::Truncated);
    }
    if tag == TAG_STRING_POOL {
        if hs != total {
            return Err(ParseError::InvalidHeader);
        }
        parse_pool(b, pos, hs)
    } else if tag == TAG_TABLE || tag == TAG_XML {
        if hs != 8 {
            return Err(ParseError::InvalidHeader);
        }
        match parse_children(b, pos + 8, pos + total, pass) {
            Ok(cs) => {
                if tag == TAG_TABLE {
                    Ok((Chunk::Table { children: cs }, pos + total))
                } else {
                    Ok((Chunk::Xml { children: cs }, pos + total))
                }
            },
            Err(e) => Err(e),
        }
    } else if tag == TAG_PACKAGE {
        if hs != 16 {
            return Err(ParseError::InvalidHeader);
        }
        let id = read_u32(b, pos + 8);
        let name = read_u32(b, pos + 12);
        match parse_children(b, pos + 16, pos + total, pass) {
            Ok(cs) => Ok((Chunk::Package { id, name, children: cs }, pos + total)),
            Err(e) => Err(e),
        }
    } else if tag == TAG_TYPE_SPEC {
        if hs != total || hs < 16 {
            return Err(ParseError::InvalidHeader);
        }
        let n32 = read_u32(b, pos + 12);
        let n = n32 as usize;
        if hs as u64 != 16 + 4 * (n32 as u64) {
            return Err(ParseError::InvalidHeader);
        }
        let id = read_u32(b, pos + 8);
        let flags = read_u32s_vec(b, pos + 16, n);
        Ok((Chunk::TypeSpec { id, flags }, pos + total))
    } else if tag == TAG_TABLE_TYPE {
        if hs != total || hs < 24 {
            return Err(ParseError::InvalidHeader);
        }
        let n32 = read_u32(b, pos + 20);
        let n = n32 as usize;
        if hs as u64 != 24 + 12 * (n32 as u64) {
            return Err(ParseError::InvalidHeader);
        }
        let id = read_u32(b, pos + 8);
        let name = read_u32(b, pos + 12);
        let density = read_u32(b, pos + 16);
        let entries = read_entries_vec(b, pos + 24, n);
        Ok((Chunk::TableType { id, name, density, entries }, pos + total))
    } else if tag == TAG_XML_START_NAMESPACE || tag == TAG_XML_END_NAMESPACE || tag
        == TAG_XML_START_ELEMENT || tag == TAG_XML_END_ELEMENT {
        if hs != total || hs != 16 {
            return Err(ParseError::InvalidHeader);
        }
        let a = read_u32(b, pos + 8);
        let c = read_u32(b, pos + 12);
        if tag == TAG_XML_START_NAMESPACE {
            Ok((Chunk::XmlStartNamespace { prefix: a, uri: c }, pos + total))
        } else if tag == TAG_XML_END_NAMESPACE {
            Ok((Chunk::XmlEndNamespace { prefix: a, uri: c }, pos + total))
        } else if tag == TAG_XML_START_ELEMENT {
            Ok((Chunk::XmlStartElement { ns: a, name: c }, pos + total))
        } else {
            Ok((Chunk::XmlEndElement { ns: a, name: c }, pos + total))
        }
    } else if tag == TAG_XML_ATTRIBUTE {
        if hs != total || hs != 28 {
            return Err(ParseError::InvalidHeader);
        }
        let ns = read_u32(b, pos + 8);
        let name = read_u32(b, pos + 12);
        let raw = read_u32(b, pos + 16);
        let typ = read_u32(b, pos + 20);
        let data = read_u32(b, pos + 24);
        Ok((Chunk::XmlAttribute { ns, name, raw, typ, data }, pos + total))
    } else if pass {
        let payload = copy_range(b, pos + 8, pos + total);
        Ok((Chunk::Unknown { tag, header_size: hs16, payload }, pos + total))
    } else {
        Err(ParseError::UnknownChunkType)
    }
}

/// Executable mirror of `dec_children`.
fn parse_children(b: &Vec<u8>, pos: usize, end: usize, pass: bool) -> (r: Result<
    Vec<Chunk>,
    ParseError,
>)
    requires
        pos <= end <= b@.len(),
    ensures
        match r {
            Ok(cs) => dec_children(b@, pos as int, end as int, pass) == Ok::<_, ParseError>(
                cvs(cs@),
            ),
            Err(e) => dec_children(b@, pos as int, end as int, pass) == Err::<Seq<ChunkV>, _>(e),
        },
    decreases end - pos, 1int,
{
    if pos >= end {
        let cs: Vec<Chunk> = Vec::new();
        proof {
            assert(cvs(cs@) =~= Seq::<ChunkV>::empty());
        }
        Ok(cs)
    } else {
        match parse_chunk(b, pos, end, pass) {
            Ok((c, q)) => {
                match parse_children(b, q, end, pass) {
                    Ok(mut cs) => {
                        let ghost restv = cs@;
                        cs.insert(0, c);
                        proof {
                            assert(cs@ =~= seq![c] + restv);
                            assert(cs@.drop_first() =~= restv);
                            assert(cvs(cs@) == seq![cv(c)] + cvs(restv));
                        }
                        Ok(cs)
                    },
                    Err(e) => Err(e),
                }
            },
            Err(e) => Err(e),
        }
    }
}

impl Chunk {
    /// Parses the chunk at the front of `data`, returning it and the number
    /// of bytes consumed.  In pass-through mode (`pass`), chunks with an
    /// unrecognized tag are preserved verbatim instead of rejected.
    pub fn parse(data: &Vec<u8>, pass: bool) -> (r: Result<(Chunk, usize), ParseError>)
        ensures
            match r {
                Ok((c, n)) => dec_chunk(data@, 0, data@.len() as int, pass) == Ok::<
                    _,
                    ParseError,
                >((cv(c), n as int)) && 8 <= n <= data@.len(),
                Err(e) => dec_chunk(data@, 0, data@.len() as int, pass) == Err::<(ChunkV, int), _>(
                    e,
                ),
            },
    {
        parse_chunk(data, 0, data.len(), pass)
    }
}

} // verus!
