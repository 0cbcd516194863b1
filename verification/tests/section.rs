use bytes::Bytes;
use grafeo_compact::section::{
    assemble_node_table, assemble_rel_table, build_id_map, compute_statistics,
    infer_column_type_from_codec, CompactStoreSection, DecodedColumn, DecodedRel, SectionType,
};
use grafeo_compact::section_codec::{
    read_optional_value, read_string, read_u16, read_u32, read_u64, read_zone_map,
    write_string_len, write_zone_map, SectionError, SectionPart, ZoneBound, FORMAT_VERSION,
    FORMAT_VERSION_V1, FORMAT_VERSION_V2, FORMAT_VERSION_V3,
};
use grafeo_compact::section_frame::{
    SectionColumn, SectionFrame, SectionIds, SectionNodeTable, SectionProperty, SectionRelTable,
};
use grafeo_compact::section_read::{
    deserialize_compact_store, BlockExtent, BlockKind, OpenSection, SectionStop,
};
use grafeo_compact::staging::{decode_value, encode_value};
use grafeo_compact::tables::{
    ColumnCodec, ColumnType, CsrAdjacency, DictColumn, FlatColumn, FlatKind,
};
use grafeo_compact::value::{Value, ZoneMap};

// A column in these tests is its length and then its values one by one.
fn column_body(values: &[Value]) -> Bytes {
    let mut body = Vec::new();
    for v in values {
        encode_value(&mut body, v).unwrap();
    }
    let mut out = (body.len() as u32).to_le_bytes().to_vec();
    out.extend_from_slice(&body);
    Bytes::from(out)
}

fn column_values(body: &[u8]) -> Vec<Value> {
    let mut out = Vec::new();
    let mut at = 4;
    while at < body.len() {
        let (v, next) = decode_value(body, at).unwrap();
        out.push(v);
        at = next;
    }
    out
}

// An adjacency is the numbers of offsets and targets, a flag, and the words.
fn csr_body(offsets: &[u32], targets: &[u32]) -> Bytes {
    let mut out = (offsets.len() as u32).to_le_bytes().to_vec();
    out.extend_from_slice(&(targets.len() as u32).to_le_bytes());
    out.push(0);
    for w in offsets.iter().chain(targets) {
        out.extend_from_slice(&w.to_le_bytes());
    }
    Bytes::from(out)
}

fn csr_words(body: &[u8]) -> (Vec<u32>, Vec<u32>) {
    let n = u32::from_le_bytes([body[0], body[1], body[2], body[3]]) as usize;
    let words: Vec<u32> = body[9..]
        .chunks(4)
        .map(|c| u32::from_le_bytes([c[0], c[1], c[2], c[3]]))
        .collect();
    (words[..n].to_vec(), words[n..].to_vec())
}

fn next_extent(data: &[u8], kind: BlockKind, start: usize) -> BlockExtent {
    let word = |o: usize| {
        u32::from_le_bytes([data[o], data[o + 1], data[o + 2], data[o + 3]]) as usize
    };
    match kind {
        BlockKind::Column | BlockKind::Property => {
            BlockExtent { end: start + 4 + word(start), edges: 0 }
        }
        BlockKind::Forward | BlockKind::Reverse => BlockExtent {
            end: start + 9 + 4 * (word(start) + word(start + 4)),
            edges: word(start + 4),
        },
    }
}

fn restore(data: &[u8]) -> Result<CompactStoreSection, SectionError> {
    let bytes = Bytes::from(data.to_vec());
    let mut section = CompactStoreSection::empty();
    let mut blocks = Vec::new();
    loop {
        match section.deserialize_from_bytes(&bytes, &blocks) {
            Ok(()) => return Ok(section),
            Err(SectionStop::Fail(e)) => return Err(e),
            Err(SectionStop::Block { kind, start }) => {
                blocks.push(next_extent(data, kind, start));
            }
        }
    }
}

fn text(s: &str) -> Value {
    Value::String(s.to_string())
}

fn node_table(label: &str, rows: u32, columns: Vec<SectionColumn>) -> SectionNodeTable {
    SectionNodeTable { label: label.to_string(), rows, columns }
}

fn plain_column(key: &str, values: &[Value]) -> SectionColumn {
    SectionColumn { key: key.to_string(), zone: None, body: column_body(values) }
}

fn node_place(section: &CompactStoreSection, id: u64) -> Option<(u16, u64)> {
    let f = section.store().unwrap();
    let lens: Vec<usize> = f.nodes.iter().map(|t| t.rows as usize).collect();
    let ids = f.ids.as_ref().unwrap();
    build_id_map(&ids.nodes, &lens).places.get(&id).copied()
}

fn node_property(section: &CompactStoreSection, id: u64, key: &str) -> Option<String> {
    let (table, row) = node_place(section, id)?;
    let f = section.store().unwrap();
    let c = f.nodes[table as usize].columns.iter().find(|c| c.key == key)?;
    Some(format!("{:?}", column_values(&c.body)[row as usize]))
}

fn shown(v: Value) -> Option<String> {
    Some(format!("{v:?}"))
}

fn node_count(s: &CompactStoreSection) -> u64 {
    compute_statistics(s.store().unwrap()).total_nodes
}

fn edge_count(s: &CompactStoreSection) -> u64 {
    compute_statistics(s.store().unwrap()).total_edges
}

fn empty_frame() -> SectionFrame {
    SectionFrame {
        nodes: vec![],
        rels: vec![],
        ids: Some(SectionIds { nodes: vec![], edges: vec![] }),
    }
}

fn one_node(label: &str) -> SectionFrame {
    SectionFrame {
        nodes: vec![node_table(label, 1, vec![])],
        rels: vec![],
        ids: Some(SectionIds { nodes: vec![(0, 0, 0)], edges: vec![] }),
    }
}

fn people() -> SectionFrame {
    SectionFrame {
        nodes: vec![
            node_table(
                "Person",
                2,
                vec![
                    plain_column("name", &[text("Alix"), text("Gus")]),
                    plain_column("age", &[Value::Int64(30), Value::Int64(25)]),
                ],
            ),
            node_table("City", 1, vec![plain_column("name", &[text("Amsterdam")])]),
        ],
        rels: vec![SectionRelTable {
            edge_type: "LIVES_IN".to_string(),
            src: 0,
            dst: 1,
            fwd: csr_body(&[0, 1, 2], &[0, 0]),
            edges: 2,
            bwd: Some(csr_body(&[0, 2], &[0, 1])),
            properties: vec![],
        }],
        ids: Some(SectionIds {
            nodes: vec![(0, 0, 0), (1, 0, 1), (2, 1, 0)],
            edges: vec![(0, 0, 0), (1, 0, 1)],
        }),
    }
}

fn two_people() -> SectionFrame {
    SectionFrame {
        nodes: vec![node_table(
            "Person",
            2,
            vec![
                plain_column("name", &[text("Alix"), text("Gus")]),
                plain_column("age", &[Value::Int64(30), Value::Int64(25)]),
            ],
        )],
        rels: vec![SectionRelTable {
            edge_type: "KNOWS".to_string(),
            src: 0,
            dst: 0,
            fwd: csr_body(&[0, 1, 1], &[1]),
            edges: 1,
            bwd: None,
            properties: vec![],
        }],
        ids: Some(SectionIds { nodes: vec![(0, 0, 0), (1, 0, 1)], edges: vec![(0, 0, 0)] }),
    }
}

#[test]
fn test_round_trip_empty() {
    let section = CompactStoreSection::new(empty_frame());
    let bytes = section.serialize().unwrap();
    let restored = restore(&bytes).unwrap();
    assert_eq!(node_count(&restored), 0);
    assert_eq!(edge_count(&restored), 0);
}

#[test]
fn test_round_trip_nodes_and_edges() {
    let section = CompactStoreSection::new(people());
    let bytes = section.serialize().unwrap();
    let restored = restore(&bytes).unwrap();
    let f = restored.store().unwrap();
    assert!(f.ids.is_some());
    assert_eq!(node_count(&restored), 3);
    assert_eq!(edge_count(&restored), 2);

    // Original ids survive.
    assert_eq!(node_property(&restored, 0, "name"), shown(text("Alix")));
    assert_eq!(node_property(&restored, 0, "age"), shown(Value::Int64(30)));

    // Edge traversal: the neighbour of the first person is the city.
    let (offsets, targets) = csr_words(&f.rels[0].fwd);
    let out = &targets[offsets[0] as usize..offsets[1] as usize];
    assert_eq!(out.len(), 1);
    assert_eq!(node_place(&restored, 2), Some((f.rels[0].dst, u64::from(out[0]))));
    assert_eq!(f.rels[0].bwd.as_ref().unwrap(), &csr_body(&[0, 2], &[0, 1]));
}

#[test]
fn test_round_trip_without_id_preservation() {
    let section = CompactStoreSection::new(SectionFrame {
        nodes: vec![node_table(
            "Node",
            2,
            vec![plain_column("val", &[Value::Int64(42), Value::Int64(99)])],
        )],
        rels: vec![SectionRelTable {
            edge_type: "LINK".to_string(),
            src: 0,
            dst: 0,
            fwd: csr_body(&[0, 1, 1], &[1]),
            edges: 1,
            bwd: None,
            properties: vec![],
        }],
        ids: None,
    });
    let bytes = section.serialize().unwrap();
    let restored = restore(&bytes).unwrap();
    assert!(restored.store().unwrap().ids.is_none());
    assert_eq!(node_count(&restored), 2);
    assert_eq!(edge_count(&restored), 1);
}

#[test]
fn test_crc_integrity() {
    let section = CompactStoreSection::new(one_node("Test"));
    let mut bytes = section.serialize().unwrap();

    // Corrupt a byte in the middle.
    if bytes.len() > 10 {
        bytes[10] ^= 0xFF;
    }
    let err = restore(&bytes).expect_err("corrupt");
    assert!(matches!(err, SectionError::Crc { .. }), "{err:?}");
}

#[test]
fn test_section_type_and_version() {
    let section = CompactStoreSection::empty();
    assert_eq!(section.section_type(), SectionType::CompactStore);
    assert_eq!(section.version(), FORMAT_VERSION);
    assert!(!section.is_dirty());
    assert_eq!(section.memory_usage(123), 0);
    assert_eq!(CompactStoreSection::new(empty_frame()).memory_usage(123), 123);
}

#[test]
fn test_dirty_tracking() {
    let mut section = CompactStoreSection::empty();
    assert!(!section.is_dirty());
    section.mark_dirty();
    assert!(section.is_dirty());
    section.mark_clean();
    assert!(!section.is_dirty());
}

#[test]
fn nelson_v1_section_reads_through_v2_aware_deserializer() {
    let section = CompactStoreSection::new(two_people());
    let v1_bytes = section.serialize_with_version(FORMAT_VERSION_V1).unwrap();
    assert_eq!(v1_bytes[4], FORMAT_VERSION_V1, "expected v1 marker in version byte");

    let restored = restore(&v1_bytes).unwrap();
    assert_eq!(node_count(&restored), 2);
    assert_eq!(edge_count(&restored), 1);
    assert_eq!(node_property(&restored, 0, "name"), shown(text("Alix")));
    assert_eq!(node_property(&restored, 0, "age"), shown(Value::Int64(30)));
}

#[test]
fn rita_unknown_version_returns_clear_error() {
    let section = CompactStoreSection::new(one_node("Item"));
    let mut bytes = section.serialize().unwrap();
    // Strip CRC, flip version byte to a future v9, recompute CRC.
    let crc_pos = bytes.len() - 4;
    bytes[4] = 9;
    let crc = crc32fast::hash(&bytes[..crc_pos]);
    bytes[crc_pos..].copy_from_slice(&crc.to_le_bytes());

    let err = restore(&bytes).expect_err("expected version error");
    assert!(
        err.message().contains("unsupported CompactStore section version"),
        "unexpected error message: {err:?}"
    );
    assert_eq!(err, SectionError::UnsupportedVersion(9));
}

#[test]
fn test_round_trip_bool_column() {
    let section = CompactStoreSection::new(SectionFrame {
        nodes: vec![node_table(
            "Item",
            2,
            vec![plain_column("active", &[Value::Bool(true), Value::Bool(false)])],
        )],
        rels: vec![],
        ids: Some(SectionIds { nodes: vec![(0, 0, 0), (1, 0, 1)], edges: vec![] }),
    });
    let restored = restore(&section.serialize().unwrap()).unwrap();
    assert_eq!(node_property(&restored, 0, "active"), shown(Value::Bool(true)));
    assert_eq!(node_property(&restored, 1, "active"), shown(Value::Bool(false)));
}

#[test]
fn test_round_trip_edge_properties() {
    let mut frame = two_people();
    frame.rels[0].properties.push(SectionProperty {
        key: "weight".to_string(),
        body: column_body(&[Value::Int64(5)]),
    });
    let section = CompactStoreSection::new(frame);
    let restored = restore(&section.serialize().unwrap()).unwrap();
    let f = restored.store().unwrap();
    assert_eq!(edge_count(&restored), 1);
    let p = &f.rels[0].properties[0];
    assert_eq!(p.key, "weight");
    assert_eq!(format!("{:?}", column_values(&p.body)[0]), format!("{:?}", Value::Int64(5)));
}

fn documentation_json(len: usize) -> (SectionFrame, String) {
    let body: String = "D".repeat(len);
    let zone = ZoneMap {
        min: Some(text(&body)),
        max: Some(text(&body)),
        null_count: 0,
        row_count: 1,
    };
    let column = SectionColumn {
        key: "documentation_json".to_string(),
        zone: Some(zone),
        body: column_body(&[text(&body)]),
    };
    let frame = SectionFrame {
        nodes: vec![node_table("CodeSymbol", 1, vec![column])],
        rels: vec![],
        ids: Some(SectionIds { nodes: vec![(0, 0, 0)], edges: vec![] }),
    };
    (frame, body)
}

#[test]
fn e0_v3_string_boundary_65535_round_trips() {
    let (frame, body) = documentation_json(65_535);
    let section = CompactStoreSection::new(frame);
    let bytes = section
        .serialize_with_version(FORMAT_VERSION_V3)
        .expect("v3 must accept 65535-byte section strings");
    assert_eq!(bytes[4], FORMAT_VERSION_V3);
    let restored = restore(&bytes).unwrap();
    assert_eq!(node_property(&restored, 0, "documentation_json"), shown(text(&body)));
}

#[test]
fn e0_v3_string_boundary_65536_returns_serialization_error_without_panic() {
    let (frame, _) = documentation_json(65_536);
    let section = CompactStoreSection::new(frame);
    let err = section
        .serialize_with_version(FORMAT_VERSION_V3)
        .expect_err("v3 must reject 65536-byte section strings");
    assert_eq!(
        err,
        SectionError::BoundTooLong {
            len: 65_536,
            version: 3,
            bound: ZoneBound::Min,
            table: 0,
            column: 0,
        }
    );
    assert!(err.message().contains("zone_map"));
}

#[test]
fn e0_v4_string_boundary_65536_round_trips() {
    let (frame, body) = documentation_json(65_536);
    let section = CompactStoreSection::new(frame);
    let bytes = section.serialize().expect("v4 writer must accept 65536-byte strings");
    assert_eq!(bytes[4], FORMAT_VERSION);
    assert_eq!(section.version(), FORMAT_VERSION);
    assert_eq!(FORMAT_VERSION, 4);
    let restored = restore(&bytes).unwrap();
    assert_eq!(node_property(&restored, 0, "documentation_json"), shown(text(&body)));
    let zone = restored.store().unwrap().nodes[0].columns[0].zone.as_ref().unwrap();
    assert_eq!(format!("{:?}", zone.max), format!("{:?}", Some(text(&body))));
}

#[test]
fn e0_v4_production_like_96kib_round_trips() {
    let len = 96 * 1024;
    let (frame, body) = documentation_json(len);
    let section = CompactStoreSection::new(frame);
    let bytes = section.serialize().unwrap();
    assert_eq!(bytes[4], 4);
    let restored = restore(&bytes).unwrap();
    assert_eq!(node_property(&restored, 0, "documentation_json"), shown(text(&body)));
}

#[test]
fn e0_v4_truncated_string_length_fails_closed() {
    // Claim 10 UTF-8 bytes but supply only 2 after a u32 length prefix.
    let mut data = Vec::new();
    data.extend_from_slice(&10u32.to_le_bytes());
    data.extend_from_slice(b"ab");
    let mut pos = 0;
    let err = read_string(&data, &mut pos, FORMAT_VERSION).expect_err("truncated");
    assert!(err.message().contains("truncated string"), "unexpected error: {err:?}");
}

#[test]
fn e0_write_string_len_rejects_over_u32_max_without_allocating_string() {
    let mut buf = Vec::new();
    let over = (u32::MAX as usize).saturating_add(1);
    assert!(over > u32::MAX as usize);
    let err = write_string_len(&mut buf, over, FORMAT_VERSION).expect_err("over u32");
    assert!(err.message().contains("u32::MAX"), "{err:?}");
    assert_eq!(err, SectionError::TextTooLong { len: over, version: 4 });
    assert!(buf.is_empty(), "must not write a partial length prefix");
}

#[test]
fn e0_serialize_rejects_unknown_version() {
    let section = CompactStoreSection::new(one_node("Item"));
    let err = section.serialize_with_version(9).expect_err("unknown version");
    assert!(err.message().contains("unsupported CompactStore section version"));
    assert_eq!(err, SectionError::UnsupportedVersion(9));
}

#[test]
fn e0_v4_payload_and_section_version_are_four() {
    let section = CompactStoreSection::new(one_node("Item"));
    assert_eq!(section.version(), 4);
    let bytes = section.serialize().unwrap();
    assert_eq!(bytes[4], 4);
}

#[test]
fn e0_malformed_v4_header_only_fails_closed_without_pathological_alloc() {
    let mut payload = Vec::new();
    payload.extend_from_slice(b"GCST");
    payload.push(FORMAT_VERSION);
    payload.push(0);
    let crc = crc32fast::hash(&payload);
    payload.extend_from_slice(&crc.to_le_bytes());
    assert_eq!(payload.len(), 10);

    let err = restore(&payload).expect_err("header-only v4 must fail closed");
    let msg = err.message();
    assert!(
        msg.contains("exceeds remaining payload")
            || msg.contains("node_tables")
            || msg.contains("truncated"),
        "expected checked-bounds error, got: {msg}"
    );
}

#[test]
fn e0_malformed_v4_huge_node_table_count_fails_closed_without_pathological_alloc() {
    let mut payload = Vec::new();
    payload.extend_from_slice(b"GCST");
    payload.push(FORMAT_VERSION);
    payload.push(0); // flags: no id maps
    payload.extend_from_slice(&u32::MAX.to_le_bytes()); // num_node_tables
    let crc = crc32fast::hash(&payload);
    payload.extend_from_slice(&crc.to_le_bytes());

    let err = restore(&payload).expect_err("huge node_tables count must fail closed");
    let msg = err.message();
    assert!(
        msg.contains("exceeds remaining payload")
            || msg.contains("node_tables")
            || msg.contains("u16::MAX"),
        "expected checked-bounds error, got: {msg}"
    );
    assert_eq!(
        err,
        SectionError::TableCount { part: SectionPart::NodeTables, count: u32::MAX }
    );
}

fn reseal_section_crc(payload: &mut [u8]) {
    assert!(payload.len() >= 4, "section payload too short for CRC");
    let body_end = payload.len() - 4;
    let crc = crc32fast::hash(&payload[..body_end]);
    payload[body_end..].copy_from_slice(&crc.to_le_bytes());
}

#[test]
fn e0_malformed_v4_invalid_node_table_id_in_id_map_fails_closed() {
    let section = CompactStoreSection::new(one_node("Person"));
    let mut bytes = section.serialize().unwrap();
    assert_eq!(bytes[4], FORMAT_VERSION);
    assert_ne!(bytes[5] & 0x01, 0, "preserves_ids flag must be set");

    let tid_off = bytes.len() - 4 /*crc*/ - 4 /*edge_map_len*/ - 8 /*off*/ - 2 /*tid*/;
    let old_tid = u16::from_le_bytes([bytes[tid_off], bytes[tid_off + 1]]);
    assert_eq!(old_tid, 0, "expected sole node table id 0 before corruption");
    bytes[tid_off..tid_off + 2].copy_from_slice(&u16::MAX.to_le_bytes());
    reseal_section_crc(&mut bytes);

    let err = restore(&bytes).expect_err("unknown node table id must fail closed");
    let msg = err.message();
    assert!(
        msg.contains("unknown table id") && msg.contains("node_id_map"),
        "expected unknown node table id error, got: {msg}"
    );
    let mut section2 = CompactStoreSection::empty();
    assert!(section2.deserialize_from_bytes(&Bytes::from(bytes), &[]).is_err());
    assert!(
        section2.store().is_none(),
        "must not accept a partially decoded / inconsistent store"
    );
}

#[test]
fn e0_malformed_v4_invalid_rel_table_id_in_id_map_fails_closed() {
    let mut frame = two_people();
    frame.nodes[0].columns.clear();
    let section = CompactStoreSection::new(frame);
    let mut bytes = section.serialize().unwrap();
    assert_eq!(bytes[4], FORMAT_VERSION);
    assert_ne!(bytes[5] & 0x01, 0, "preserves_ids flag must be set");

    let rtid_off = bytes.len() - 4 /*crc*/ - 8 /*csr_pos*/ - 2 /*rtid*/;
    let old_rtid = u16::from_le_bytes([bytes[rtid_off], bytes[rtid_off + 1]]);
    assert_eq!(old_rtid, 0, "expected sole rel table id 0 before corruption");
    bytes[rtid_off..rtid_off + 2].copy_from_slice(&1u16.to_le_bytes());
    reseal_section_crc(&mut bytes);

    let err = restore(&bytes).expect_err("unknown rel table id must fail closed");
    let msg = err.message();
    assert!(
        msg.contains("unknown rel table id") && msg.contains("edge_id_map"),
        "expected unknown rel table id error, got: {msg}"
    );
    assert_eq!(
        err,
        SectionError::UnknownTable { part: SectionPart::EdgeIdMap, table: 1, tables: 1 }
    );
}

#[test]
fn e0_v3_reader_compat_via_serialize_with_version() {
    let section = CompactStoreSection::new(SectionFrame {
        nodes: vec![node_table("Person", 1, vec![plain_column("name", &[text("Alix")])])],
        rels: vec![],
        ids: Some(SectionIds { nodes: vec![(0, 0, 0)], edges: vec![] }),
    });
    let v3 = section.serialize_with_version(FORMAT_VERSION_V3).unwrap();
    assert_eq!(v3[4], FORMAT_VERSION_V3);
    let restored = restore(&v3).unwrap();
    assert_eq!(node_property(&restored, 0, "name"), shown(text("Alix")));
}

#[test]
fn vincent_v2_section_round_trip_leaves_block_zone_maps_empty() {
    let values: Vec<Value> = (0..1500).map(Value::Int64).collect();
    let section = CompactStoreSection::new(SectionFrame {
        nodes: vec![node_table("Item", 1500, vec![plain_column("score", &values)])],
        rels: vec![],
        ids: None,
    });
    let v2_bytes = section.serialize_with_version(FORMAT_VERSION_V2).unwrap();
    assert_eq!(v2_bytes[4], FORMAT_VERSION_V2);
    let restored = restore(&v2_bytes).unwrap();
    let f = restored.store().unwrap();
    let table = SectionNodeTable {
        label: f.nodes[0].label.clone(),
        rows: f.nodes[0].rows,
        columns: vec![plain_column("score", &[])],
    };
    // A version 2 block carries no zone maps of its own.
    let decoded = DecodedColumn {
        codec: ColumnCodec::Flat(FlatColumn { kind: FlatKind::RawI64, rows: 1500, body: vec![6] }),
        stats: None,
    };
    let table = assemble_node_table(table, vec![decoded]);
    assert!(table.block_zone_maps.get("score").is_none());
    assert_eq!(table.rows, 1500);
}

#[test]
fn jules_v1_section_round_trip_leaves_block_zone_maps_empty() {
    let values: Vec<Value> = (0..1500).map(Value::Int64).collect();
    let section = CompactStoreSection::new(SectionFrame {
        nodes: vec![node_table("Item", 1500, vec![plain_column("score", &values)])],
        rels: vec![],
        ids: None,
    });
    let v1_bytes = section.serialize_with_version(FORMAT_VERSION_V1).unwrap();
    assert_eq!(v1_bytes[4], FORMAT_VERSION_V1);
    let restored = restore(&v1_bytes).unwrap();
    let f = restored.store().unwrap();
    assert_eq!(column_values(&f.nodes[0].columns[0].body).len(), 1500);
    // A version 1 block carries no zone maps of its own.
    let decoded = DecodedColumn {
        codec: ColumnCodec::Flat(FlatColumn { kind: FlatKind::RawI64, rows: 1500, body: vec![6] }),
        stats: None,
    };
    let head = node_table("Item", f.nodes[0].rows, vec![plain_column("score", &[])]);
    let table = assemble_node_table(head, vec![decoded]);
    assert!(
        table.block_zone_maps.get("score").is_none(),
        "v1 stream must not populate block_zone_maps"
    );
    assert_eq!(table.rows, 1500);
}

#[test]
fn gus_v3_round_trip_preserves_block_zone_maps() {
    let values: Vec<i64> = (0i64..2500).collect();
    let original_zms: Vec<ZoneMap> = values
        .chunks(1024)
        .map(|c| ZoneMap {
            min: c.iter().min().map(|v| Value::Int64(*v)),
            max: c.iter().max().map(|v| Value::Int64(*v)),
            null_count: 0,
            row_count: c.len(),
        })
        .collect();
    // A column in this test is its length and then the zone maps of its blocks.
    let mut body = Vec::new();
    for z in &original_zms {
        write_zone_map(&mut body, z, FORMAT_VERSION_V3, 0, 0).unwrap();
    }
    let mut block = (body.len() as u32).to_le_bytes().to_vec();
    block.extend_from_slice(&body);
    let column =
        SectionColumn { key: "score".to_string(), zone: None, body: Bytes::from(block) };
    let section = CompactStoreSection::new(SectionFrame {
        nodes: vec![node_table("Item", 2500, vec![column])],
        rels: vec![],
        ids: None,
    });
    let bytes = section.serialize_with_version(FORMAT_VERSION_V3).unwrap();
    assert_eq!(bytes[4], FORMAT_VERSION_V3);
    let restored = restore(&bytes).unwrap();
    let f = restored.store().unwrap();
    let stored = &f.nodes[0].columns[0].body;
    let mut stats = Vec::new();
    let mut at = 4;
    while at < stored.len() {
        stats.push(read_zone_map(stored, &mut at, FORMAT_VERSION_V3).unwrap());
    }
    let decoded = DecodedColumn {
        codec: ColumnCodec::Flat(FlatColumn { kind: FlatKind::RawI64, rows: 2500, body: vec![6] }),
        stats: Some(stats),
    };
    let head = node_table("Item", f.nodes[0].rows, vec![plain_column("score", &[])]);
    let table = assemble_node_table(head, vec![decoded]);
    let restored_zms = table.block_zone_maps.get("score").expect("restored block stats");
    assert_eq!(restored_zms.len(), original_zms.len());
    for (i, (orig, rest)) in original_zms.iter().zip(restored_zms.iter()).enumerate() {
        assert_eq!(orig.row_count, rest.row_count, "row_count mismatch at {i}");
        assert_eq!(orig.null_count, rest.null_count, "null_count mismatch at {i}");
        assert_eq!(format!("{:?}", orig.min), format!("{:?}", rest.min), "min mismatch at {i}");
        assert_eq!(format!("{:?}", orig.max), format!("{:?}", rest.max), "max mismatch at {i}");
    }
}

#[test]
fn every_version_round_trips_a_frame() {
    for version in [1u8, 2, 3, 4] {
        let section = CompactStoreSection::new(people());
        let bytes = section.serialize_with_version(version).unwrap();
        let restored = restore(&bytes).unwrap();
        assert_eq!(
            format!("{:?}", restored.store().unwrap()),
            format!("{:?}", people()),
            "version {version}"
        );
    }
}

#[test]
fn a_section_has_the_documented_bytes() {
    let section = CompactStoreSection::new(one_node("A"));
    let mut want = b"GCST".to_vec();
    want.push(4);
    want.push(1);
    want.extend_from_slice(&1u32.to_le_bytes());
    want.extend_from_slice(&1u32.to_le_bytes());
    want.push(b'A');
    want.extend_from_slice(&1u32.to_le_bytes());
    want.extend_from_slice(&0u32.to_le_bytes());
    want.extend_from_slice(&0u32.to_le_bytes());
    want.extend_from_slice(&1u32.to_le_bytes());
    want.extend_from_slice(&0u64.to_le_bytes());
    want.extend_from_slice(&0u16.to_le_bytes());
    want.extend_from_slice(&0u64.to_le_bytes());
    want.extend_from_slice(&0u32.to_le_bytes());
    let crc = crc32fast::hash(&want);
    want.extend_from_slice(&crc.to_le_bytes());
    assert_eq!(section.serialize().unwrap(), want);
}

#[test]
fn bounds_that_a_section_cannot_hold_are_written_as_absent() {
    let mut frame = two_people();
    frame.nodes[0].columns[1].zone = Some(ZoneMap {
        min: Some(Value::Float64(7)),
        max: Some(Value::Int64(-3)),
        null_count: 2,
        row_count: 5,
    });
    let restored = restore(&CompactStoreSection::new(frame).serialize().unwrap()).unwrap();
    let zone = restored.store().unwrap().nodes[0].columns[1].zone.as_ref().unwrap();
    assert!(zone.min.is_none());
    assert_eq!(format!("{:?}", zone.max), format!("{:?}", Some(Value::Int64(-3))));
    assert_eq!((zone.null_count, zone.row_count), (2, 5));
}

#[test]
fn a_section_without_a_store_is_not_written() {
    assert_eq!(CompactStoreSection::empty().serialize().unwrap_err(), SectionError::NoStore);
}

#[test]
fn a_mapped_section_is_read_like_any_other() {
    let data = CompactStoreSection::new(one_node("A")).serialize().unwrap();
    let mut section = CompactStoreSection::empty();
    section.deserialize_from_mapped_bytes(&Bytes::from(data), &[]).unwrap();
    assert_eq!(section.store().unwrap().nodes[0].label, "A");
    let short = Bytes::from_static(b"GCST");
    assert!(section.deserialize_from_mapped_bytes(&short, &[]).is_err());
    assert_eq!(section.store().unwrap().nodes[0].label, "A");
}

#[test]
fn open_section_checks_its_ends() {
    let short = OpenSection::open(&Bytes::from_static(b"GCST")).unwrap_err();
    assert_eq!(short, SectionError::TooShort);
    let mut data = CompactStoreSection::new(one_node("A")).serialize().unwrap();
    assert_eq!(OpenSection::open(&Bytes::from(data.clone())).unwrap().version(), 4);
    data[0] = b'X';
    reseal_section_crc(&mut data);
    let magic = OpenSection::open(&Bytes::from(data)).unwrap_err();
    assert_eq!(magic, SectionError::BadMagic);
}

#[test]
fn a_block_outside_the_section_is_refused() {
    let data = Bytes::from(CompactStoreSection::new(two_people()).serialize().unwrap());
    let far = [BlockExtent { end: data.len() + 1, edges: 0 }];
    assert!(matches!(
        deserialize_compact_store(&data, &far),
        Err(SectionStop::Fail(SectionError::BlockExtent { .. }))
    ));
    let before = [BlockExtent { end: 0, edges: 0 }];
    assert!(matches!(
        deserialize_compact_store(&data, &before),
        Err(SectionStop::Fail(SectionError::BlockExtent { end: 0, .. }))
    ));
    assert!(matches!(
        deserialize_compact_store(&data, &[]),
        Err(SectionStop::Block { kind: BlockKind::Column, .. })
    ));
}

fn section_bytes(version: u8, flags: u8, rest: &[u8]) -> Vec<u8> {
    let mut out = b"GCST".to_vec();
    out.push(version);
    out.push(flags);
    out.extend_from_slice(rest);
    out.extend_from_slice(&[0; 4]);
    reseal_section_crc(&mut out);
    out
}

#[test]
fn cut_off_parts_are_reported() {
    let mut pos = 0;
    assert_eq!(read_u16(&[1], &mut pos), Err(SectionError::TruncatedU16));
    assert_eq!(read_u32(&[1, 2, 3], &mut pos), Err(SectionError::TruncatedU32));
    assert_eq!(read_u64(&[1; 7], &mut pos), Err(SectionError::TruncatedU64));
    assert_eq!(pos, 0);
    assert_eq!(read_u16(&[1, 2], &mut pos), Ok(0x201));
    assert_eq!(pos, 2);
    let mut pos = 0;
    assert_eq!(read_string(&[2, 0, 0xff, 0xfe], &mut pos, 3), Err(SectionError::InvalidText));
    assert_eq!(read_string(&[0, 0], &mut pos, 7), Err(SectionError::UnsupportedVersion(7)));
    assert_eq!(
        read_optional_value(&[], &mut pos, 4).unwrap_err(),
        SectionError::TruncatedValueTag
    );
    assert_eq!(
        read_optional_value(&[1, 0], &mut pos, 4).unwrap_err(),
        SectionError::TruncatedInt
    );
    assert_eq!(read_optional_value(&[2], &mut pos, 4).unwrap_err(), SectionError::TruncatedBool);
    assert_eq!(
        read_optional_value(&[9], &mut pos, 4).unwrap_err(),
        SectionError::UnknownValueTag(9)
    );
}

#[test]
fn counts_beyond_the_section_are_refused() {
    let mut rest = 1u32.to_le_bytes().to_vec();
    rest.extend_from_slice(&0u16.to_le_bytes());
    rest.extend_from_slice(&0u32.to_le_bytes());
    rest.extend_from_slice(&900u32.to_le_bytes());
    let err = restore(&section_bytes(3, 0, &rest)).unwrap_err();
    assert!(matches!(
        err,
        SectionError::CountBeyondPayload { part: SectionPart::NodeColumns, count: 900, .. }
    ));
}

#[test]
fn an_id_map_entry_beyond_its_table_is_refused() {
    let mut frame = one_node("A");
    frame.ids = Some(SectionIds { nodes: vec![(5, 0, 1)], edges: vec![] });
    let bytes = CompactStoreSection::new(frame).serialize().unwrap();
    assert_eq!(
        restore(&bytes).unwrap_err(),
        SectionError::OffsetBeyondTable {
            part: SectionPart::NodeIdMap,
            offset: 1,
            table: 0,
            len: 1,
        }
    );
}

#[test]
fn of_columns_with_one_key_the_last_counts() {
    let flat = |n: u8| {
        ColumnCodec::Flat(FlatColumn { kind: FlatKind::RawI64, rows: 1, body: vec![6, n] })
    };
    let zone = ZoneMap { min: None, max: None, null_count: 1, row_count: 1 };
    let first = SectionColumn {
        key: "k".to_string(),
        zone: Some(zone),
        body: Bytes::new(),
    };
    let table = assemble_node_table(
        node_table("T", 1, vec![first, plain_column("k", &[])]),
        vec![
            DecodedColumn { codec: flat(1), stats: None },
            DecodedColumn { codec: flat(2), stats: Some(vec![]) },
        ],
    );
    assert_eq!(format!("{:?}", table.columns.get("k").unwrap()), format!("{:?}", flat(2)));
    assert_eq!(table.zone_maps.get("k").unwrap().null_count, 1);
    assert_eq!(table.block_zone_maps.get("k").unwrap().len(), 0);
}

#[test]
fn relationship_tables_are_put_together() {
    let mut frame = two_people();
    frame.rels[0].properties.push(SectionProperty { key: "w".to_string(), body: Bytes::new() });
    let rel = frame.rels.remove(0);
    let dict = ColumnCodec::Dict(DictColumn { entries: vec!["x".to_string()], codes: vec![0] });
    let table = assemble_rel_table(
        rel,
        DecodedRel {
            fwd: CsrAdjacency { offsets: vec![0, 1, 1], targets: vec![1], edge_data: None },
            bwd: None,
            properties: vec![dict],
        },
    );
    assert_eq!(table.edge_type, "KNOWS");
    assert_eq!(table.fwd.targets, vec![1]);
    assert_eq!(table.properties.get("w").unwrap().len(), 1);
}

#[test]
fn id_maps_go_both_ways() {
    let map = build_id_map(&vec![(10, 0, 2), (11, 1, 0), (10, 0, 0)], &vec![3, 1]);
    assert_eq!(map.places.get(&10), Some(&(0, 0)));
    assert_eq!(map.places.get(&11), Some(&(1, 0)));
    assert_eq!(map.rows[0], vec![Some(10), None, Some(10)]);
    assert_eq!(map.rows[1], vec![Some(11)]);
}

#[test]
fn statistics_add_up() {
    let mut frame = people();
    let again = SectionRelTable {
        edge_type: "LIVES_IN".to_string(),
        src: 1,
        dst: 1,
        fwd: csr_body(&[0], &[]),
        edges: 5,
        bwd: None,
        properties: vec![],
    };
    frame.rels.push(again);
    let stats = compute_statistics(&frame);
    assert_eq!((stats.total_nodes, stats.total_edges), (3, 7));
    assert_eq!(stats.type_counts.get("LIVES_IN"), Some(&7));
    assert_eq!(stats.label_counts.get("Person"), Some(&2));
    assert_eq!(stats.label_tables.get("City"), Some(&1));
    assert_eq!(stats.label_tables.get("Dog"), None);
}

#[test]
fn column_types_follow_the_encoding() {
    let flat = |kind| ColumnCodec::Flat(FlatColumn { kind, rows: 0, body: vec![] });
    assert_eq!(
        infer_column_type_from_codec(&flat(FlatKind::BitPacked), 5),
        ColumnType::UInt { bits: 5 }
    );
    assert_eq!(infer_column_type_from_codec(&flat(FlatKind::Bitmap), 0), ColumnType::Bool);
    assert_eq!(
        infer_column_type_from_codec(&flat(FlatKind::Float32Vector), 3),
        ColumnType::Float32Vector { dimensions: 3 }
    );
}
