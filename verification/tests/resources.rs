use apk::chunk::{Chunk, ResEntry};
use apk::manifest::{compile_manifest, Attr, AttrValue, CompileError, Element};
use apk::mipmap::compile_mipmap;
use apk::pool::StringPool;
use apk::table::{MergeError, Table, TableError, TYPE_REFERENCE, TYPE_STRING};

fn base_table_bytes() -> Vec<u8> {
    // a small platform-style base table: one package with one type
    let chunk = Chunk::Table {
        children: vec![Chunk::Package {
            id: 127,
            name: 0,
            children: vec![
                Chunk::StringPool {
                    utf8: true,
                    strings: vec![b"string".to_vec(), b"app_name".to_vec()],
                },
                Chunk::TypeSpec { id: 1, flags: vec![0] },
                Chunk::TableType {
                    id: 1,
                    name: 0,
                    density: 0,
                    entries: vec![ResEntry { name: 1, typ: TYPE_STRING, data: 1 }],
                },
            ],
        }],
    };
    let mut bytes = Vec::new();
    chunk.write(&mut bytes);
    bytes
}

#[test]
fn pool_interning_deduplicates() {
    let mut pool = StringPool::new(true);
    let a = pool.intern(b"icon".to_vec());
    let b = pool.intern(b"other".to_vec());
    let c = pool.intern(b"icon".to_vec());
    assert_eq!(a, c);
    assert_ne!(a, b);
    assert_eq!(pool.strings.len(), 2);
    // the serialized entry count counts each distinct string once
    let mut bytes = Vec::new();
    pool.to_chunk().write(&mut bytes);
    assert_eq!(&bytes[8..12], &[2, 0, 0, 0]);
}

#[test]
fn import_rejects_non_table() {
    let mut bytes = Vec::new();
    Chunk::Xml { children: vec![] }.write(&mut bytes);
    assert!(matches!(
        Table::import(&bytes),
        Err(apk::table::ImportError::MalformedTable)
    ));
}

#[test]
fn import_rejects_truncated() {
    let mut bytes = base_table_bytes();
    bytes.pop();
    assert!(matches!(
        Table::import(&bytes),
        Err(apk::table::ImportError::Parse(apk::parse::ParseError::Truncated))
    ));
}

#[test]
fn merge_before_import_fails() {
    let mut table = Table::default();
    let mipmap = compile_mipmap(&b"icon".to_vec()).expect("compile");
    assert_eq!(table.merge(mipmap.chunk), Err(MergeError::PackageNotFound));
}

#[test]
fn merge_assigns_fresh_type_and_keeps_old_ids() {
    let bytes = base_table_bytes();
    let mut table = Table::import(&bytes).expect("import");
    let before = table
        .resolve(&b"string".to_vec(), &b"app_name".to_vec())
        .expect("existing entry resolves");
    assert_eq!(before, 0x7f01_0000);
    let mipmap = compile_mipmap(&b"icon".to_vec()).expect("compile");
    let ids = table.merge(mipmap.chunk).expect("merge");
    assert_eq!(ids.len(), 5);
    // the identifier of the pre-existing entry did not move
    let after = table
        .resolve(&b"string".to_vec(), &b"app_name".to_vec())
        .expect("still resolves");
    assert_eq!(after, before);
    // the new family sits in the next free type id, entry id zero
    assert_eq!(ids[0], 0x7f02_0000);
    // one table entry per density bucket, all naming the same entry
    for id in &ids {
        assert_eq!(*id, 0x7f02_0000);
    }
}

#[test]
fn merged_family_resolves_to_returned_identifier() {
    let bytes = base_table_bytes();
    let mut table = Table::import(&bytes).expect("import");
    let mipmap = compile_mipmap(&b"icon".to_vec()).expect("compile");
    let ids = table.merge(mipmap.chunk).expect("merge");
    let resolved = table
        .resolve(&b"mipmap".to_vec(), &b"icon".to_vec())
        .expect("resolves");
    assert_eq!(resolved, ids[0]);
}

#[test]
fn mipmap_buckets_increase() {
    let mipmap = compile_mipmap(&b"icon".to_vec()).expect("compile");
    assert_eq!(mipmap.variants.len(), 5);
    let sizes: Vec<u32> = mipmap.variants.iter().map(|v| v.1).collect();
    assert_eq!(sizes, vec![48, 72, 96, 144, 192]);
    let paths: Vec<Vec<u8>> = mipmap.variants.iter().map(|v| v.0.clone()).collect();
    assert_eq!(
        paths,
        vec![
            b"res/mipmap-mdpi/icon.png".to_vec(),
            b"res/mipmap-hdpi/icon.png".to_vec(),
            b"res/mipmap-xhdpi/icon.png".to_vec(),
            b"res/mipmap-xxhdpi/icon.png".to_vec(),
            b"res/mipmap-xxxhdpi/icon.png".to_vec(),
        ]
    );
    // density buckets in the chunk are in increasing order too
    match &mipmap.chunk {
        Chunk::Package { children, .. } => {
            let mut last = 0;
            let mut seen = 0;
            for c in children {
                if let Chunk::TableType { density, .. } = c {
                    assert!(*density > last);
                    last = *density;
                    seen += 1;
                }
            }
            assert_eq!(seen, 5);
            assert_eq!(last, 640);
        },
        other => panic!("expected a package chunk, got {:?}", other),
    }
}

fn icon_manifest() -> Element {
    Element {
        ns: Vec::new(),
        name: b"manifest".to_vec(),
        attrs: vec![Attr {
            ns: Vec::new(),
            name: b"package".to_vec(),
            value: AttrValue::Str(b"com.example.app".to_vec()),
        }],
        children: vec![Element {
            ns: Vec::new(),
            name: b"application".to_vec(),
            attrs: vec![
                Attr {
                    ns: b"android".to_vec(),
                    name: b"icon".to_vec(),
                    value: AttrValue::Reference(b"mipmap".to_vec(), b"icon".to_vec()),
                },
                Attr {
                    ns: b"android".to_vec(),
                    name: b"debuggable".to_vec(),
                    value: AttrValue::Bool(true),
                },
                Attr {
                    ns: b"android".to_vec(),
                    name: b"versionCode".to_vec(),
                    value: AttrValue::Int(21),
                },
            ],
            children: vec![],
        }],
    }
}

#[test]
fn unresolved_reference_fails() {
    let bytes = base_table_bytes();
    let table = Table::import(&bytes).expect("import");
    // the icon family was never merged
    assert_eq!(
        compile_manifest(&icon_manifest(), &table),
        Err(CompileError::UnresolvedReference)
    );
}

#[test]
fn manifest_reference_resolves_to_merged_identifier() {
    let bytes = base_table_bytes();
    let mut table = Table::import(&bytes).expect("import");
    let mipmap = compile_mipmap(&b"icon".to_vec()).expect("compile");
    let ids = table.merge(mipmap.chunk).expect("merge");
    let doc = compile_manifest(&icon_manifest(), &table).expect("compile");
    // find the reference attribute in the compiled output
    let mut ref_data = None;
    if let Chunk::Xml { children } = &doc {
        for c in children {
            if let Chunk::XmlAttribute { typ, data, .. } = c {
                if *typ == TYPE_REFERENCE {
                    ref_data = Some(*data);
                }
            }
        }
    } else {
        panic!("expected an xml chunk");
    }
    assert_eq!(ref_data, Some(ids[0]));
}

#[test]
fn compiled_manifest_round_trips() {
    let bytes = base_table_bytes();
    let mut table = Table::import(&bytes).expect("import");
    let mipmap = compile_mipmap(&b"icon".to_vec()).expect("compile");
    table.merge(mipmap.chunk).expect("merge");
    let doc = compile_manifest(&icon_manifest(), &table).expect("compile");
    let mut out = Vec::new();
    doc.write(&mut out);
    let (parsed, consumed) = Chunk::parse(&out, true).expect("parse");
    assert_eq!(consumed, out.len());
    assert_eq!(parsed, doc);
}

#[test]
fn serialize_freezes_the_table() {
    let bytes = base_table_bytes();
    let mut table = Table::import(&bytes).expect("import");
    let out = table.serialize().expect("serialize");
    assert!(!out.is_empty());
    // the serialized table parses back whole
    let (_, consumed) = Chunk::parse(&out, true).expect("parse");
    assert_eq!(consumed, out.len());
    // a finalized table refuses further work
    assert_eq!(table.serialize(), Err(TableError::TableFinalized));
    let mipmap = compile_mipmap(&b"icon".to_vec()).expect("compile");
    assert_eq!(table.merge(mipmap.chunk), Err(MergeError::TableFinalized));
}

#[test]
fn serialized_table_reimports_with_same_identifiers() {
    let bytes = base_table_bytes();
    let mut table = Table::import(&bytes).expect("import");
    let mipmap = compile_mipmap(&b"icon".to_vec()).expect("compile");
    let ids = table.merge(mipmap.chunk).expect("merge");
    let out = table.serialize().expect("serialize");
    let again = Table::import(&out).expect("reimport");
    assert_eq!(
        again.resolve(&b"mipmap".to_vec(), &b"icon".to_vec()),
        Some(ids[0])
    );
    assert_eq!(
        again.resolve(&b"string".to_vec(), &b"app_name".to_vec()),
        Some(0x7f01_0000)
    );
}

#[test]
fn merge_rejects_non_package_chunk() {
    let bytes = base_table_bytes();
    let mut table = Table::import(&bytes).expect("import");
    let stray = Chunk::Xml { children: vec![] };
    assert_eq!(table.merge(stray), Err(MergeError::MalformedChunk));
}

#[test]
fn oversized_pool_cannot_serialize() {
    // merging an icon with a very long name grows the package pool past
    // the 16-bit header length field, so serialization must refuse
    let bytes = base_table_bytes();
    let mut table = Table::import(&bytes).expect("import");
    let long_name = vec![b'a'; 70_000];
    let mipmap = compile_mipmap(&long_name).expect("compile");
    table.merge(mipmap.chunk).expect("merge");
    assert_eq!(table.serialize(), Err(TableError::TooLarge));
}

#[test]
fn import_rejects_trailing_bytes() {
    let mut bytes = base_table_bytes();
    bytes.push(0);
    assert!(matches!(
        Table::import(&bytes),
        Err(apk::table::ImportError::MalformedTable)
    ));
}
