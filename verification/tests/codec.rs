use apk::chunk::{Chunk, ResEntry};
use apk::parse::ParseError;

fn sample_pool() -> Chunk {
    Chunk::StringPool {
        utf8: true,
        strings: vec![b"mipmap".to_vec(), b"icon".to_vec(), b"res/mipmap-mdpi/icon.png".to_vec()],
    }
}

fn sample_table() -> Chunk {
    Chunk::Table {
        children: vec![Chunk::Package {
            id: 127,
            name: 0,
            children: vec![
                sample_pool(),
                Chunk::TypeSpec { id: 1, flags: vec![0] },
                Chunk::TableType {
                    id: 1,
                    name: 0,
                    density: 160,
                    entries: vec![ResEntry { name: 1, typ: 3, data: 2 }],
                },
            ],
        }],
    }
}

fn sample_xml() -> Chunk {
    Chunk::Xml {
        children: vec![
            sample_pool(),
            Chunk::XmlStartNamespace { prefix: 0, uri: 1 },
            Chunk::XmlStartElement { ns: 0, name: 1 },
            Chunk::XmlAttribute { ns: 0, name: 1, raw: 2, typ: 3, data: 2 },
            Chunk::XmlEndElement { ns: 0, name: 1 },
            Chunk::XmlEndNamespace { prefix: 0, uri: 1 },
        ],
    }
}

#[test]
fn round_trip_table() {
    let c = sample_table();
    let mut bytes = Vec::new();
    c.write(&mut bytes);
    let (parsed, consumed) = Chunk::parse(&bytes, true).expect("parse");
    assert_eq!(consumed, bytes.len());
    assert_eq!(parsed, sample_table());
}

#[test]
fn round_trip_xml() {
    let c = sample_xml();
    let mut bytes = Vec::new();
    c.write(&mut bytes);
    let (parsed, consumed) = Chunk::parse(&bytes, true).expect("parse");
    assert_eq!(consumed, bytes.len());
    assert_eq!(parsed, sample_xml());
}

#[test]
fn round_trip_unknown_chunk() {
    let c = Chunk::Table {
        children: vec![Chunk::Unknown { tag: 0x7777, header_size: 8, payload: vec![1, 2, 3, 4] }],
    };
    let mut bytes = Vec::new();
    c.write(&mut bytes);
    let (parsed, consumed) = Chunk::parse(&bytes, true).expect("parse");
    assert_eq!(consumed, bytes.len());
    assert_eq!(
        parsed,
        Chunk::Table {
            children: vec![Chunk::Unknown {
                tag: 0x7777,
                header_size: 8,
                payload: vec![1, 2, 3, 4]
            }],
        }
    );
}

#[test]
fn exhaustive_consumption() {
    // a known-valid fixture is consumed exactly, no trailing bytes left
    let c = sample_xml();
    let mut bytes = Vec::new();
    c.write(&mut bytes);
    let (_, consumed) = Chunk::parse(&bytes, true).expect("parse");
    assert_eq!(consumed, bytes.len());
    let c2 = sample_table();
    let mut bytes2 = Vec::new();
    c2.write(&mut bytes2);
    let (_, consumed2) = Chunk::parse(&bytes2, true).expect("parse");
    assert_eq!(consumed2, bytes2.len());
}

#[test]
fn truncated_input_fails() {
    let c = sample_table();
    let mut bytes = Vec::new();
    c.write(&mut bytes);
    bytes.pop();
    assert_eq!(Chunk::parse(&bytes, true), Err(ParseError::Truncated));
}

#[test]
fn truncated_header_fails() {
    let bytes = vec![0x02, 0x00, 0x08, 0x00];
    assert_eq!(Chunk::parse(&bytes, true), Err(ParseError::Truncated));
}

#[test]
fn invalid_header_fails() {
    // header length below the 8-byte minimum
    let bytes = vec![0x02, 0x00, 0x04, 0x00, 0x08, 0x00, 0x00, 0x00];
    assert_eq!(Chunk::parse(&bytes, true), Err(ParseError::InvalidHeader));
    // total length smaller than header length
    let bytes = vec![0x02, 0x00, 0x10, 0x00, 0x08, 0x00, 0x00, 0x00];
    assert_eq!(Chunk::parse(&bytes, true), Err(ParseError::InvalidHeader));
}

#[test]
fn unknown_tag_rejected_without_passthrough() {
    let c = Chunk::Unknown { tag: 0x7777, header_size: 8, payload: vec![9, 9] };
    let mut bytes = Vec::new();
    c.write(&mut bytes);
    assert_eq!(Chunk::parse(&bytes, false), Err(ParseError::UnknownChunkType));
    assert!(Chunk::parse(&bytes, true).is_ok());
}

#[test]
fn leaf_sizes_are_exact() {
    // a two-word leaf is 16 bytes: 8 of header, 8 of fields
    let c = Chunk::XmlStartElement { ns: 7, name: 9 };
    let mut bytes = Vec::new();
    c.write(&mut bytes);
    assert_eq!(bytes.len(), 16);
    assert_eq!(&bytes[..8], &[0x02, 0x01, 0x10, 0x00, 0x10, 0x00, 0x00, 0x00]);
    assert_eq!(&bytes[8..12], &[7, 0, 0, 0]);
    assert_eq!(&bytes[12..16], &[9, 0, 0, 0]);
}

#[test]
fn pool_layout_is_exact() {
    // count, style count, flags, offsets, length-prefixed data, padding
    let c = Chunk::StringPool { utf8: true, strings: vec![b"ab".to_vec()] };
    let mut bytes = Vec::new();
    c.write(&mut bytes);
    // 8 header + 12 meta + 4 offset + (4 + 2) data + 2 padding
    assert_eq!(bytes.len(), 32);
    assert_eq!(&bytes[..8], &[0x01, 0x00, 0x20, 0x00, 0x20, 0x00, 0x00, 0x00]);
    assert_eq!(&bytes[8..12], &[1, 0, 0, 0]); // one entry
    assert_eq!(&bytes[12..16], &[0, 0, 0, 0]); // no styles
    assert_eq!(&bytes[16..20], &[1, 0, 0, 0]); // utf-8
    assert_eq!(&bytes[20..24], &[0, 0, 0, 0]); // offset of entry 0
    assert_eq!(&bytes[24..28], &[2, 0, 0, 0]); // length of "ab"
    assert_eq!(&bytes[28..30], b"ab");
    assert_eq!(&bytes[30..], &[0, 0]); // aligned to four bytes
}

#[test]
fn pool_size_matches_declared_length() {
    let c = sample_pool();
    let mut bytes = Vec::new();
    c.write(&mut bytes);
    assert_eq!(c.size(), bytes.len() as u64);
}
